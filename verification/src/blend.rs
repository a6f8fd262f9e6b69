//! Reading the block structure of a Blender `.blend` file.
//!
//! A file starts with a 12-byte header (`BLENDER`, a pointer-size byte, an
//! endianness byte and a three-character version), followed by blocks. A
//! block has a 24-byte head: a four-character code, the length of the body
//! (four bytes, least significant first) and further fields, then the body.
//! The bodies of cameras (`CA`), objects (`OB`), materials (`MA`) and
//! meshes (`ME`) start with an ID (120 bytes, holding the name) followed by
//! the struct's own fields; all other bodies are passed over. The blocks
//! end with `ENDB` (of length zero) or with the `DNA1` block.
//!
//! The file is read as a sequence of fixed-size reads; when fewer bytes are
//! left than a read asks for, the rest is consumed, the shortfall reported,
//! and reading stops. What was read is reported as a list of events; a
//! float is reported by its bits. A file whose reading would meet a fault
//! (a code cut inside a character, a kind out of its range, a body shorter
//! than its struct) is not read: see `reads_through`.
use vstd::prelude::*;
use crate::platform::{host_is_little, host_little_endian, pointer_size};

verus! {

broadcast use vstd::seq_lib::group_seq_properties;

/// A value of a struct that is reported.
#[derive(Clone, Copy, Debug, PartialEq, Eq, Structural)]
pub enum Field {
    Loc,
    Dloc,
    Orig,
    Size,
    Dsize,
    Dscale,
    Rot,
    Drot,
    Quat,
    Dquat,
    RotAxis,
    DrotAxis,
    RotAngle,
    DrotAngle,
    Obmat,
    Parentinv,
    Constinv,
    Imat,
    ImatRen,
    Lay,
    MaterialType,
    R,
    G,
    B,
    Specr,
    Specg,
    Specb,
    Mirr,
    Mirg,
    Mirb,
    Ambr,
    Ambg,
    Ambb,
    Amb,
    Emit,
    Ang,
    Spectra,
    RayMirror,
    Alpha,
    Ref,
    Spec,
    Zoffs,
    Add,
    Translucency,
    DiffShader,
    SpecShader,
    Totvert,
    Totedge,
    Totface,
    Totselect,
    Totpoly,
    Totloop,
}

/// One element of the layout of a struct, read in order.
#[derive(Clone, Copy)]
pub enum Item {
    /// `count` reads of `size` bytes each, passed over.
    Skip { size: u8, count: u8 },
    /// A read of `size` bytes holding a name, ended by the first zero byte.
    Name { size: u8 },
    /// A read of one byte: the type of a camera.
    CamType,
    /// A read of four bytes: the focal length of a camera.
    Lens,
    /// `count` reads of four bytes each (a word each), reported together.
    Words { field: Field, count: u8 },
    /// Four reads of four bytes: row `row` of a 4x4 matrix, reported.
    Row { field: Field, row: u8 },
    /// A read of two bytes: a kind, which must be at most `max`.
    Kind { field: Field, max: u16 },
}

/// A reason for which reading cannot go on.
#[derive(Clone, Copy, Debug, PartialEq, Eq, Structural)]
pub enum BlendFault {
    /// A code or the header would be cut inside a character when the bytes
    /// are taken as Latin-1 text.
    CutInsideChar,
    /// A kind outside its range; `raw` is its two bytes as a number.
    BadKind { field: Field, raw: u16 },
    /// The body of a block is shorter than the struct read from it.
    BodyTooShort,
}

/// What reading a file reports, in order.
#[derive(Clone, Copy, Debug, PartialEq, Eq, Structural)]
pub enum BlendEvent {
    /// A read of `expected` bytes found only `read` bytes.
    Short { read: usize, expected: usize },
    /// The name of a struct: `len` bytes starting at `start` in the file.
    Name { start: usize, len: usize },
    /// Words read for `field` (row `row` of a matrix); the first `count`
    /// of `w0`..`w3` are meaningful.
    Words { field: Field, row: u8, count: u8, w0: u32, w1: u32, w2: u32, w3: u32 },
    /// A kind read for `field`.
    Kind { field: Field, value: u16 },
    /// How many bytes of a body are left after its struct.
    Remaining { bytes: u32 },
    /// A camera: its name (`len` bytes at `start`), type and focal length.
    Camera { start: usize, len: usize, cam_type: u8, lens: u32 },
    /// The `ENDB` block ends the blocks.
    End,
    /// The `DNA1` block ends the blocks.
    Dna,
    /// Reading cannot go on.
    Fault { fault: BlendFault },
}

/// Whether reading of a struct goes on.
#[derive(Clone, Copy, Debug, PartialEq, Eq, Structural)]
pub enum Stop {
    Going,
    Short,
    Fault { fault: BlendFault },
}

/// How far the reading of a struct got.
pub struct Progress {
    pub events: Seq<BlendEvent>,
    pub pos: int,
    pub stop: Stop,
    pub cam_type: u8,
    pub lens: u32,
    pub name_start: int,
    pub name_len: int,
    pub counted: int,
}

/// The word of four bytes at `at`, least significant byte first when
/// `little`, most significant first otherwise.
pub open spec fn word_at(b: Seq<u8>, at: int, little: bool) -> u32 {
    if little {
        (b[at] + 256 * b[at + 1] + 65536 * b[at + 2] + 16777216 * b[at + 3]) as u32
    } else {
        (b[at + 3] + 256 * b[at + 2] + 65536 * b[at + 1] + 16777216 * b[at]) as u32
    }
}

/// The two bytes at `at` as a number, least significant first when `little`.
pub open spec fn half_at(b: Seq<u8>, at: int, little: bool) -> u16 {
    if little {
        (b[at] + 256 * b[at + 1]) as u16
    } else {
        (b[at + 1] + 256 * b[at]) as u16
    }
}

/// Number of bytes of a name: those before the first zero byte.
pub open spec fn name_length(s: Seq<u8>) -> int
    decreases s.len(),
{
    if s.len() == 0 || s[0] == 0 {
        0
    } else {
        1 + name_length(s.drop_first())
    }
}

/// How many bytes the item reads in all.
pub open spec fn item_size(it: Item) -> int {
    match it {
        Item::Skip { size, count } => size * count,
        Item::Name { size } => size as int,
        Item::CamType => 1,
        Item::Lens => 4,
        Item::Words { count, .. } => 4 * count,
        Item::Row { .. } => 16,
        Item::Kind { .. } => 2,
    }
}

/// The shortfall reported when only `avail` bytes are left for the item:
/// its reads before the failing one succeed.
pub open spec fn short_of(it: Item, avail: int) -> BlendEvent {
    match it {
        Item::Skip { size, .. } => BlendEvent::Short { read: (avail % (size as int)) as usize, expected: size as usize },
        Item::Words { .. } => BlendEvent::Short { read: (avail % 4) as usize, expected: 4 },
        Item::Row { .. } => BlendEvent::Short { read: (avail % 4) as usize, expected: 4 },
        Item::Name { size } => BlendEvent::Short { read: avail as usize, expected: size as usize },
        Item::CamType => BlendEvent::Short { read: avail as usize, expected: 1 },
        Item::Lens => BlendEvent::Short { read: avail as usize, expected: 4 },
        Item::Kind { .. } => BlendEvent::Short { read: avail as usize, expected: 2 },
    }
}

/// How many bytes of the item were taken by reads that found all they
/// asked for, when only `avail` bytes are left for it: the whole reads
/// before the failing one when the item is read piecewise.
pub open spec fn short_counted(it: Item, avail: int) -> int {
    match it {
        Item::Skip { size, .. } => (avail / (size as int)) * size,
        _ => 0,
    }
}

/// Reading one item of a struct at `p.pos`; `p.counted` grows by the bytes
/// of the reads that found all they asked for.
pub open spec fn step_item(b: Seq<u8>, p: Progress, it: Item, little: bool) -> Progress {
    let avail = b.len() - p.pos;
    let n = item_size(it);
    if avail < n {
        Progress {
            events: p.events.push(short_of(it, avail)),
            pos: b.len() as int,
            stop: Stop::Short,
            counted: p.counted + short_counted(it, avail),
            ..p
        }
    } else {
        let at = p.pos;
        let p = Progress { counted: p.counted + n, ..p };
        match it {
            Item::Skip { .. } => Progress { pos: at + n, ..p },
            Item::Name { .. } => Progress {
                pos: at + n,
                name_start: at,
                name_len: name_length(b.subrange(at, at + n)),
                ..p
            },
            Item::CamType => Progress { pos: at + 1, cam_type: b[at], ..p },
            Item::Lens => Progress { pos: at + 4, lens: word_at(b, at, little), ..p },
            Item::Words { field, count } => Progress {
                pos: at + n,
                events: p.events.push(
                    BlendEvent::Words {
                        field,
                        row: 0,
                        count,
                        w0: if count > 0 { word_at(b, at, little) } else { 0 },
                        w1: if count > 1 { word_at(b, at + 4, little) } else { 0 },
                        w2: if count > 2 { word_at(b, at + 8, little) } else { 0 },
                        w3: if count > 3 { word_at(b, at + 12, little) } else { 0 },
                    },
                ),
                ..p
            },
            Item::Row { field, row } => Progress {
                pos: at + 16,
                events: p.events.push(
                    BlendEvent::Words {
                        field,
                        row,
                        count: 4,
                        w0: word_at(b, at, little),
                        w1: word_at(b, at + 4, little),
                        w2: word_at(b, at + 8, little),
                        w3: word_at(b, at + 12, little),
                    },
                ),
                ..p
            },
            Item::Kind { field, max } => {
                let raw = half_at(b, at, little);
                if raw <= max {
                    Progress { pos: at + 2, events: p.events.push(BlendEvent::Kind { field, value: raw }), ..p }
                } else {
                    Progress { pos: at + 2, stop: Stop::Fault { fault: BlendFault::BadKind { field, raw } }, ..p }
                }
            },
        }
    }
}

/// Reading the items of a struct one after the other, until one of them
/// stops the reading.
pub open spec fn read_items(b: Seq<u8>, p: Progress, items: Seq<Item>, little: bool) -> Progress
    decreases items.len(),
{
    if items.len() == 0 || p.stop != Stop::Going {
        p
    } else {
        read_items(b, step_item(b, p, items[0], little), items.drop_first(), little)
    }
}

/// Whether every item of the layout has a size that a read can take.
pub open spec fn sane_items(items: Seq<Item>) -> bool {
    forall|i: int|
        0 <= i < items.len() ==> match #[trigger] items[i] {
            Item::Skip { size, count } => size > 0 && count > 0,
            Item::Name { size } => size > 0,
            Item::Words { count, .. } => 1 <= count <= 4,
            Item::Row { row, .. } => row < 4,
            _ => true,
        }
}

/// The word of four bytes at `at` (see `word_at`).
pub(crate) fn word(b: &Vec<u8>, at: usize, little: bool) -> (w: u32)
    requires
        at + 4 <= b.len(),
    ensures
        w == word_at(b@, at as int, little),
{
    let (x0, x1, x2, x3) = if little {
        (b[at], b[at + 1], b[at + 2], b[at + 3])
    } else {
        (b[at + 3], b[at + 2], b[at + 1], b[at])
    };
    x0 as u32 + 256 * (x1 as u32) + 65536 * (x2 as u32) + 16777216 * (x3 as u32)
}

/// The two bytes at `at` as a number (see `half_at`).
pub(crate) fn half(b: &Vec<u8>, at: usize, little: bool) -> (h: u16)
    requires
        at + 2 <= b.len(),
    ensures
        h == half_at(b@, at as int, little),
{
    let (x0, x1) = if little {
        (b[at], b[at + 1])
    } else {
        (b[at + 1], b[at])
    };
    x0 as u16 + 256 * (x1 as u16)
}

/// The length of the name held in the `n` bytes at `start`.
pub(crate) fn name_len_at(b: &Vec<u8>, start: usize, n: usize) -> (len: usize)
    requires
        start + n <= b.len(),
    ensures
        len == name_length(b@.subrange(start as int, start + n)),
{
    let mut k: usize = 0;
    while k < n && b[start + k] != 0
        invariant
            k <= n,
            start + n <= b.len(),
            name_length(b@.subrange(start as int, start + n)) == k + name_length(
                b@.subrange(start + k, start + n),
            ),
        decreases n - k,
    {
        proof {
            let s = b@.subrange(start + k, start + n);
            assert(s.drop_first() =~= b@.subrange(start + k + 1, start + n));
        }
        k = k + 1;
    }
    k
}

/// How many bytes the item reads in all (see `item_size`).
fn size_of_item(it: Item) -> (n: usize)
    ensures
        n == item_size(it),
{
    match it {
        Item::Skip { size, count } => {
            assert(size * count <= 255 * 255) by (nonlinear_arith)
                requires
                    size <= 255,
                    count <= 255,
            ;
            (size as usize) * (count as usize)
        },
        Item::Name { size } => size as usize,
        Item::CamType => 1,
        Item::Lens => 4,
        Item::Words { count, .. } => 4 * (count as usize),
        Item::Row { .. } => 16,
        Item::Kind { .. } => 2,
    }
}

/// The reading of a struct in progress: the events so far, the position
/// in the file, whether reading goes on, and the values kept for later.
pub struct Reader {
    pub events: Vec<BlendEvent>,
    pub pos: usize,
    pub stop: Stop,
    pub cam_type: u8,
    pub lens: u32,
    pub name_start: usize,
    pub name_len: usize,
    pub counted: usize,
}

impl Reader {
    /// The reader as a `Progress`.
    pub open spec fn progress(&self) -> Progress {
        Progress {
            events: self.events@,
            pos: self.pos as int,
            stop: self.stop,
            cam_type: self.cam_type,
            lens: self.lens,
            name_start: self.name_start as int,
            name_len: self.name_len as int,
            counted: self.counted as int,
        }
    }

    /// Reads one item.
    fn read_item(&mut self, b: &Vec<u8>, it: Item, little: bool)
        requires
            old(self).stop == Stop::Going,
            old(self).pos <= b.len(),
            old(self).counted + b.len() - old(self).pos <= usize::MAX,
            sane_items(seq![it]),
        ensures
            final(self).progress() == step_item(b@, old(self).progress(), it, little),
            old(self).pos <= final(self).pos <= b.len(),
            final(self).counted - old(self).counted <= final(self).pos - old(self).pos,
    {
        assert(seq![it][0] == it);
        let n = size_of_item(it);
        let avail = b.len() - self.pos;
        if avail < n {
            let short = match it {
                Item::Skip { size, .. } => BlendEvent::Short { read: avail % (size as usize), expected: size as usize },
                Item::Words { .. } => BlendEvent::Short { read: avail % 4, expected: 4 },
                Item::Row { .. } => BlendEvent::Short { read: avail % 4, expected: 4 },
                Item::Name { size } => BlendEvent::Short { read: avail, expected: size as usize },
                Item::CamType => BlendEvent::Short { read: avail, expected: 1 },
                Item::Lens => BlendEvent::Short { read: avail, expected: 4 },
                Item::Kind { .. } => BlendEvent::Short { read: avail, expected: 2 },
            };
            let taken = match it {
                Item::Skip { size, .. } => {
                    let sz = size as usize;
                    assert((avail / sz) * sz <= avail) by (nonlinear_arith)
                        requires
                            sz > 0,
                    ;
                    (avail / sz) * sz
                },
                _ => 0,
            };
            self.events.push(short);
            self.counted = self.counted + taken;
            self.pos = b.len();
            self.stop = Stop::Short;
            return;
        }
        let at = self.pos;
        match it {
            Item::Skip { .. } => {},
            Item::Name { .. } => {
                self.name_start = at;
                self.name_len = name_len_at(b, at, n);
            },
            Item::CamType => {
                self.cam_type = b[at];
            },
            Item::Lens => {
                self.lens = word(b, at, little);
            },
            Item::Words { field, count } => {
                let w0 = if count > 0 {
                    word(b, at, little)
                } else {
                    0
                };
                let w1 = if count > 1 {
                    word(b, at + 4, little)
                } else {
                    0
                };
                let w2 = if count > 2 {
                    word(b, at + 8, little)
                } else {
                    0
                };
                let w3 = if count > 3 {
                    word(b, at + 12, little)
                } else {
                    0
                };
                self.events.push(BlendEvent::Words { field, row: 0, count, w0, w1, w2, w3 });
            },
            Item::Row { field, row } => {
                let w0 = word(b, at, little);
                let w1 = word(b, at + 4, little);
                let w2 = word(b, at + 8, little);
                let w3 = word(b, at + 12, little);
                self.events.push(BlendEvent::Words { field, row, count: 4, w0, w1, w2, w3 });
            },
            Item::Kind { field, max } => {
                let raw = half(b, at, little);
                if raw <= max {
                    self.events.push(BlendEvent::Kind { field, value: raw });
                } else {
                    self.stop = Stop::Fault { fault: BlendFault::BadKind { field, raw } };
                }
            },
        }
        self.counted = self.counted + n;
        self.pos = at + n;
    }

    /// Reads the items one after the other, until one of them stops the
    /// reading.
    pub fn read_items(&mut self, b: &Vec<u8>, items: &Vec<Item>, little: bool)
        requires
            old(self).pos <= b.len(),
            old(self).counted + b.len() - old(self).pos <= usize::MAX,
            sane_items(items@),
        ensures
            final(self).progress() == read_items(b@, old(self).progress(), items@, little),
            old(self).pos <= final(self).pos <= b.len(),
            final(self).counted - old(self).counted <= final(self).pos - old(self).pos,
    {
        let ghost start = self.progress();
        let mut i: usize = 0;
        while i < items.len() && self.stop == Stop::Going
            invariant
                0 <= i <= items.len(),
                start.pos <= self.pos <= b.len(),
                self.counted - start.counted <= self.pos - start.pos,
                start.counted + b.len() - start.pos <= usize::MAX,
                sane_items(items@),
                read_items(b@, start, items@, little) == read_items(b@, self.progress(), items@.skip(i as int), little),
            decreases items.len() - i,
        {
            let it = items[i];
            proof {
                assert(items@.skip(i as int)[0] == it);
                assert(items@.skip(i as int).drop_first() =~= items@.skip(i + 1));
                assert(sane_items(seq![it])) by {
                    assert(seq![it][0] == items@[i as int]);
                }
            }
            self.read_item(b, it, little);
            i = i + 1;
        }
        proof {
            if i == items.len() {
                assert(items@.skip(i as int) =~= Seq::<Item>::empty());
            }
        }
    }
}

/// The layout of the ID that starts each struct: four pointers, the name (66 bytes), flags, counts and a pointer.
pub open spec fn id_layout() -> Seq<Item> {
    seq![
        Item::Skip { size: 8, count: 4 },
        Item::Name { size: 66 },
        Item::Skip { size: 2, count: 1 },
        Item::Skip { size: 4, count: 3 },
        Item::Skip { size: 8, count: 1 },
    ]
}

fn id_items() -> (items: Vec<Item>)
    ensures
        items@ == id_layout(),
        sane_items(items@),
{
    let items = vec![
        Item::Skip { size: 8, count: 4 },
        Item::Name { size: 66 },
        Item::Skip { size: 2, count: 1 },
        Item::Skip { size: 4, count: 3 },
        Item::Skip { size: 8, count: 1 },
    ];
    assert(items@ =~= id_layout());
    items
}

/// The layout of a camera after its ID: animation data, type, two flags, three distances and the focal length.
pub open spec fn camera_layout() -> Seq<Item> {
    seq![
        Item::Skip { size: 8, count: 1 },
        Item::CamType,
        Item::Skip { size: 1, count: 1 },
        Item::Skip { size: 2, count: 1 },
        Item::Skip { size: 4, count: 3 },
        Item::Lens,
    ]
}

fn camera_items() -> (items: Vec<Item>)
    ensures
        items@ == camera_layout(),
        sane_items(items@),
{
    let items = vec![
        Item::Skip { size: 8, count: 1 },
        Item::CamType,
        Item::Skip { size: 1, count: 1 },
        Item::Skip { size: 2, count: 1 },
        Item::Skip { size: 4, count: 3 },
        Item::Lens,
    ];
    assert(items@ =~= camera_layout());
    items
}

/// The layout of an object after its ID: pointers, parent data and modes, then the location, rotation and scale vectors, the angles, five 4x4 matrices and the layer.
pub open spec fn object_layout() -> Seq<Item> {
    seq![
        Item::Skip { size: 8, count: 2 },
        Item::Skip { size: 2, count: 2 },
        Item::Skip { size: 4, count: 3 },
        Item::Skip { size: 64, count: 1 },
        Item::Skip { size: 8, count: 12 },
        Item::Skip { size: 48, count: 1 },
        Item::Skip { size: 8, count: 1 },
        Item::Skip { size: 64, count: 1 },
        Item::Skip { size: 4, count: 2 },
        Item::Skip { size: 8, count: 2 },
        Item::Skip { size: 4, count: 2 },
        Item::Words { field: Field::Loc, count: 3 },
        Item::Words { field: Field::Dloc, count: 3 },
        Item::Words { field: Field::Orig, count: 3 },
        Item::Words { field: Field::Size, count: 3 },
        Item::Words { field: Field::Dsize, count: 3 },
        Item::Words { field: Field::Dscale, count: 3 },
        Item::Words { field: Field::Rot, count: 3 },
        Item::Words { field: Field::Drot, count: 3 },
        Item::Words { field: Field::Quat, count: 4 },
        Item::Words { field: Field::Dquat, count: 4 },
        Item::Words { field: Field::RotAxis, count: 3 },
        Item::Words { field: Field::DrotAxis, count: 3 },
        Item::Words { field: Field::RotAngle, count: 1 },
        Item::Words { field: Field::DrotAngle, count: 1 },
        Item::Row { field: Field::Obmat, row: 0 },
        Item::Row { field: Field::Obmat, row: 1 },
        Item::Row { field: Field::Obmat, row: 2 },
        Item::Row { field: Field::Obmat, row: 3 },
        Item::Row { field: Field::Parentinv, row: 0 },
        Item::Row { field: Field::Parentinv, row: 1 },
        Item::Row { field: Field::Parentinv, row: 2 },
        Item::Row { field: Field::Parentinv, row: 3 },
        Item::Row { field: Field::Constinv, row: 0 },
        Item::Row { field: Field::Constinv, row: 1 },
        Item::Row { field: Field::Constinv, row: 2 },
        Item::Row { field: Field::Constinv, row: 3 },
        Item::Row { field: Field::Imat, row: 0 },
        Item::Row { field: Field::Imat, row: 1 },
        Item::Row { field: Field::Imat, row: 2 },
        Item::Row { field: Field::Imat, row: 3 },
        Item::Row { field: Field::ImatRen, row: 0 },
        Item::Row { field: Field::ImatRen, row: 1 },
        Item::Row { field: Field::ImatRen, row: 2 },
        Item::Row { field: Field::ImatRen, row: 3 },
        Item::Words { field: Field::Lay, count: 1 },
    ]
}

fn object_items() -> (items: Vec<Item>)
    ensures
        items@ == object_layout(),
        sane_items(items@),
{
    let items = vec![
        Item::Skip { size: 8, count: 2 },
        Item::Skip { size: 2, count: 2 },
        Item::Skip { size: 4, count: 3 },
        Item::Skip { size: 64, count: 1 },
        Item::Skip { size: 8, count: 12 },
        Item::Skip { size: 48, count: 1 },
        Item::Skip { size: 8, count: 1 },
        Item::Skip { size: 64, count: 1 },
        Item::Skip { size: 4, count: 2 },
        Item::Skip { size: 8, count: 2 },
        Item::Skip { size: 4, count: 2 },
        Item::Words { field: Field::Loc, count: 3 },
        Item::Words { field: Field::Dloc, count: 3 },
        Item::Words { field: Field::Orig, count: 3 },
        Item::Words { field: Field::Size, count: 3 },
        Item::Words { field: Field::Dsize, count: 3 },
        Item::Words { field: Field::Dscale, count: 3 },
        Item::Words { field: Field::Rot, count: 3 },
        Item::Words { field: Field::Drot, count: 3 },
        Item::Words { field: Field::Quat, count: 4 },
        Item::Words { field: Field::Dquat, count: 4 },
        Item::Words { field: Field::RotAxis, count: 3 },
        Item::Words { field: Field::DrotAxis, count: 3 },
        Item::Words { field: Field::RotAngle, count: 1 },
        Item::Words { field: Field::DrotAngle, count: 1 },
        Item::Row { field: Field::Obmat, row: 0 },
        Item::Row { field: Field::Obmat, row: 1 },
        Item::Row { field: Field::Obmat, row: 2 },
        Item::Row { field: Field::Obmat, row: 3 },
        Item::Row { field: Field::Parentinv, row: 0 },
        Item::Row { field: Field::Parentinv, row: 1 },
        Item::Row { field: Field::Parentinv, row: 2 },
        Item::Row { field: Field::Parentinv, row: 3 },
        Item::Row { field: Field::Constinv, row: 0 },
        Item::Row { field: Field::Constinv, row: 1 },
        Item::Row { field: Field::Constinv, row: 2 },
        Item::Row { field: Field::Constinv, row: 3 },
        Item::Row { field: Field::Imat, row: 0 },
        Item::Row { field: Field::Imat, row: 1 },
        Item::Row { field: Field::Imat, row: 2 },
        Item::Row { field: Field::Imat, row: 3 },
        Item::Row { field: Field::ImatRen, row: 0 },
        Item::Row { field: Field::ImatRen, row: 1 },
        Item::Row { field: Field::ImatRen, row: 2 },
        Item::Row { field: Field::ImatRen, row: 3 },
        Item::Words { field: Field::Lay, count: 1 },
    ];
    assert(items@ =~= object_layout());
    items
}

/// The layout of a material after its ID: the material type, its colours and shading values, settings that are passed over, and the diffuse and specular shaders.
pub open spec fn material_layout() -> Seq<Item> {
    seq![
        Item::Skip { size: 8, count: 1 },
        Item::Kind { field: Field::MaterialType, max: 3 },
        Item::Skip { size: 2, count: 1 },
        Item::Words { field: Field::R, count: 1 },
        Item::Words { field: Field::G, count: 1 },
        Item::Words { field: Field::B, count: 1 },
        Item::Words { field: Field::Specr, count: 1 },
        Item::Words { field: Field::Specg, count: 1 },
        Item::Words { field: Field::Specb, count: 1 },
        Item::Words { field: Field::Mirr, count: 1 },
        Item::Words { field: Field::Mirg, count: 1 },
        Item::Words { field: Field::Mirb, count: 1 },
        Item::Words { field: Field::Ambr, count: 1 },
        Item::Words { field: Field::Ambg, count: 1 },
        Item::Words { field: Field::Ambb, count: 1 },
        Item::Words { field: Field::Amb, count: 1 },
        Item::Words { field: Field::Emit, count: 1 },
        Item::Words { field: Field::Ang, count: 1 },
        Item::Words { field: Field::Spectra, count: 1 },
        Item::Words { field: Field::RayMirror, count: 1 },
        Item::Words { field: Field::Alpha, count: 1 },
        Item::Words { field: Field::Ref, count: 1 },
        Item::Words { field: Field::Spec, count: 1 },
        Item::Words { field: Field::Zoffs, count: 1 },
        Item::Words { field: Field::Add, count: 1 },
        Item::Words { field: Field::Translucency, count: 1 },
        Item::Skip { size: 88, count: 1 },
        Item::Skip { size: 16, count: 1 },
        Item::Skip { size: 36, count: 1 },
        Item::Skip { size: 32, count: 1 },
        Item::Skip { size: 128, count: 1 },
        Item::Skip { size: 16, count: 1 },
        Item::Skip { size: 12, count: 1 },
        Item::Kind { field: Field::DiffShader, max: 4 },
        Item::Kind { field: Field::SpecShader, max: 4 },
    ]
}

fn material_items() -> (items: Vec<Item>)
    ensures
        items@ == material_layout(),
        sane_items(items@),
{
    let items = vec![
        Item::Skip { size: 8, count: 1 },
        Item::Kind { field: Field::MaterialType, max: 3 },
        Item::Skip { size: 2, count: 1 },
        Item::Words { field: Field::R, count: 1 },
        Item::Words { field: Field::G, count: 1 },
        Item::Words { field: Field::B, count: 1 },
        Item::Words { field: Field::Specr, count: 1 },
        Item::Words { field: Field::Specg, count: 1 },
        Item::Words { field: Field::Specb, count: 1 },
        Item::Words { field: Field::Mirr, count: 1 },
        Item::Words { field: Field::Mirg, count: 1 },
        Item::Words { field: Field::Mirb, count: 1 },
        Item::Words { field: Field::Ambr, count: 1 },
        Item::Words { field: Field::Ambg, count: 1 },
        Item::Words { field: Field::Ambb, count: 1 },
        Item::Words { field: Field::Amb, count: 1 },
        Item::Words { field: Field::Emit, count: 1 },
        Item::Words { field: Field::Ang, count: 1 },
        Item::Words { field: Field::Spectra, count: 1 },
        Item::Words { field: Field::RayMirror, count: 1 },
        Item::Words { field: Field::Alpha, count: 1 },
        Item::Words { field: Field::Ref, count: 1 },
        Item::Words { field: Field::Spec, count: 1 },
        Item::Words { field: Field::Zoffs, count: 1 },
        Item::Words { field: Field::Add, count: 1 },
        Item::Words { field: Field::Translucency, count: 1 },
        Item::Skip { size: 88, count: 1 },
        Item::Skip { size: 16, count: 1 },
        Item::Skip { size: 36, count: 1 },
        Item::Skip { size: 32, count: 1 },
        Item::Skip { size: 128, count: 1 },
        Item::Skip { size: 16, count: 1 },
        Item::Skip { size: 12, count: 1 },
        Item::Kind { field: Field::DiffShader, max: 4 },
        Item::Kind { field: Field::SpecShader, max: 4 },
    ];
    assert(items@ =~= material_layout());
    items
}

/// The layout of a mesh after its ID: pointers and custom data that are passed over, the six element counts, and ten more words.
pub open spec fn mesh_layout() -> Seq<Item> {
    seq![
        Item::Skip { size: 8, count: 20 },
        Item::Skip { size: 208, count: 5 },
        Item::Words { field: Field::Totvert, count: 1 },
        Item::Words { field: Field::Totedge, count: 1 },
        Item::Words { field: Field::Totface, count: 1 },
        Item::Words { field: Field::Totselect, count: 1 },
        Item::Words { field: Field::Totpoly, count: 1 },
        Item::Words { field: Field::Totloop, count: 1 },
        Item::Skip { size: 4, count: 10 },
    ]
}

fn mesh_items() -> (items: Vec<Item>)
    ensures
        items@ == mesh_layout(),
        sane_items(items@),
{
    let items = vec![
        Item::Skip { size: 8, count: 20 },
        Item::Skip { size: 208, count: 5 },
        Item::Words { field: Field::Totvert, count: 1 },
        Item::Words { field: Field::Totedge, count: 1 },
        Item::Words { field: Field::Totface, count: 1 },
        Item::Words { field: Field::Totselect, count: 1 },
        Item::Words { field: Field::Totpoly, count: 1 },
        Item::Words { field: Field::Totloop, count: 1 },
        Item::Skip { size: 4, count: 10 },
    ];
    assert(items@ =~= mesh_layout());
    items
}

/// The UTF-8 form of bytes taken as Latin-1 characters: a byte below 0x80
/// stays as it is, any other becomes two bytes.
pub open spec fn latin1_utf8(raw: Seq<u8>) -> Seq<u8>
    decreases raw.len(),
{
    if raw.len() == 0 {
        Seq::empty()
    } else {
        let c = raw.last();
        latin1_utf8(raw.drop_last()) + if c < 0x80 {
            seq![c]
        } else {
            seq![(0xc0 + c / 64) as u8, (0x80 + c % 64) as u8]
        }
    }
}

/// Whether a UTF-8 text can be cut after its first `k` bytes without
/// cutting a character: `k` is past its end, or the byte at `k` starts a
/// character.
pub open spec fn is_boundary(u: Seq<u8>, k: int) -> bool {
    k >= u.len() || u[k] < 0x80 || u[k] >= 0xc0
}

/// The UTF-8 form of the Latin-1 characters `b[from..to]`.
pub(crate) fn latin1_utf8_of(b: &Vec<u8>, from: usize, to: usize) -> (u: Vec<u8>)
    requires
        from <= to <= b.len(),
    ensures
        u@ == latin1_utf8(b@.subrange(from as int, to as int)),
{
    let mut u: Vec<u8> = Vec::new();
    let mut i: usize = from;
    while i < to
        invariant
            from <= i <= to <= b.len(),
            u@ == latin1_utf8(b@.subrange(from as int, i as int)),
        decreases to - i,
    {
        let c = b[i];
        proof {
            let next = b@.subrange(from as int, i + 1);
            assert(next.drop_last() =~= b@.subrange(from as int, i as int));
            assert(next.last() == c);
        }
        if c < 0x80 {
            u.push(c);
        } else {
            u.push(0xc0 + c / 64);
            u.push(0x80 + c % 64);
        }
        i = i + 1;
        assert(u@ =~= latin1_utf8(b@.subrange(from as int, i as int)));
    }
    u
}

/// Whether the text can be cut after its first `k` bytes (see `is_boundary`).
pub(crate) fn boundary(u: &Vec<u8>, k: usize) -> (ok: bool)
    ensures
        ok == is_boundary(u@, k as int),
{
    k >= u.len() || u[k] < 0x80 || u[k] >= 0xc0
}

/// The structs whose blocks are read.
#[derive(Clone, Copy, Debug, PartialEq, Eq, Structural)]
pub enum StructKind {
    Camera,
    Object,
    Material,
    Mesh,
}

/// The struct that a block code starts with: `CA`, `OB`, `MA` or `ME`.
pub open spec fn struct_kind(u: Seq<u8>) -> Option<StructKind> {
    if u[0] == 67 && u[1] == 65 {
        Some(StructKind::Camera)
    } else if u[0] == 79 && u[1] == 66 {
        Some(StructKind::Object)
    } else if u[0] == 77 && u[1] == 65 {
        Some(StructKind::Material)
    } else if u[0] == 77 && u[1] == 69 {
        Some(StructKind::Mesh)
    } else {
        None
    }
}

/// The layout of a struct after its ID.
pub open spec fn struct_layout(k: StructKind) -> Seq<Item> {
    match k {
        StructKind::Camera => camera_layout(),
        StructKind::Object => object_layout(),
        StructKind::Material => material_layout(),
        StructKind::Mesh => mesh_layout(),
    }
}

fn struct_items(k: StructKind) -> (items: Vec<Item>)
    ensures
        items@ == struct_layout(k),
        sane_items(items@),
{
    match k {
        StructKind::Camera => camera_items(),
        StructKind::Object => object_items(),
        StructKind::Material => material_items(),
        StructKind::Mesh => mesh_items(),
    }
}

/// Nothing read yet, at `pos`.
pub open spec fn fresh_progress(pos: int) -> Progress {
    Progress {
        events: Seq::empty(),
        pos,
        stop: Stop::Going,
        cam_type: 0,
        lens: 0,
        name_start: pos,
        name_len: 0,
        counted: 0,
    }
}

/// Reading the body of a struct block of length `len` at `body`: the ID,
/// whose name is reported even when the ID is cut short, then the struct's
/// own fields, then the rest of the body is passed over (its length is
/// reported, except for a camera, which is reported once the body is
/// read). Also whether reading goes on with the next block.
pub open spec fn struct_block(b: Seq<u8>, body: int, len: int, kind: StructKind, little: bool) -> (
    Seq<BlendEvent>,
    bool,
) {
    let id = read_items(b, fresh_progress(body), id_layout(), little);
    let named = id.events.push(BlendEvent::Name { start: id.name_start as usize, len: id.name_len as usize });
    let st = read_items(b, Progress { events: named, stop: Stop::Going, ..id }, struct_layout(kind), little);
    match st.stop {
        Stop::Short => (st.events, false),
        Stop::Fault { fault } => (st.events.push(BlendEvent::Fault { fault }), false),
        Stop::Going => {
            let counted = st.counted;
            if len < counted {
                (st.events.push(BlendEvent::Fault { fault: BlendFault::BodyTooShort }), false)
            } else {
                let rest = len - counted;
                let evs = if kind == StructKind::Camera {
                    st.events
                } else {
                    st.events.push(BlendEvent::Remaining { bytes: rest as u32 })
                };
                if b.len() - st.pos < rest {
                    (evs.push(BlendEvent::Short { read: (b.len() - st.pos) as usize, expected: rest as usize }), false)
                } else if kind == StructKind::Camera {
                    (
                        evs.push(
                            BlendEvent::Camera {
                                start: id.name_start as usize,
                                len: id.name_len as usize,
                                cam_type: st.cam_type,
                                lens: st.lens,
                            },
                        ),
                        true,
                    )
                } else {
                    (evs, true)
                }
            }
        },
    }
}

/// The code `ENDB`.
pub open spec fn endb() -> Seq<u8> {
    seq![69u8, 78u8, 68u8, 66u8]
}

/// The code `DNA1`.
pub open spec fn dna1() -> Seq<u8> {
    seq![68u8, 78u8, 65u8, 49u8]
}

/// Reading the blocks from `pos` on: each block's 24-byte head gives its
/// code (its first four characters, the bytes taken as Latin-1) and the
/// length of its body (bytes 4 to 7, least significant first).
pub open spec fn blocks_from(b: Seq<u8>, pos: int, little: bool) -> Seq<BlendEvent>
    decreases b.len() - pos,
{
    if pos < 0 || pos > b.len() {
        Seq::empty()
    } else if b.len() - pos < 24 {
        seq![BlendEvent::Short { read: (b.len() - pos) as usize, expected: 24 }]
    } else {
        let u = latin1_utf8(b.subrange(pos, pos + 24));
        let len = word_at(b, pos + 4, true) as int;
        let body = pos + 24;
        if !is_boundary(u, 4) {
            seq![BlendEvent::Fault { fault: BlendFault::CutInsideChar }]
        } else if u.subrange(0, 4) == endb() && len == 0 {
            seq![BlendEvent::End]
        } else if u.subrange(0, 4) == dna1() {
            seq![BlendEvent::Dna]
        } else if !is_boundary(u, 2) {
            seq![BlendEvent::Fault { fault: BlendFault::CutInsideChar }]
        } else {
            match struct_kind(u) {
                None => if b.len() - body < len {
                    seq![BlendEvent::Short { read: (b.len() - body) as usize, expected: len as usize }]
                } else {
                    blocks_from(b, body + len, little)
                },
                Some(k) => {
                    let (evs, go) = struct_block(b, body, len, k, little);
                    if go && body + len <= b.len() {
                        evs + blocks_from(b, body + len, little)
                    } else {
                        evs
                    }
                },
            }
        }
    }
}

/// Reads the body of a struct block (see `struct_block`).
fn read_struct_block(b: &Vec<u8>, body: usize, len: u32, kind: StructKind, little: bool) -> (r: (
    Vec<BlendEvent>,
    bool,
))
    requires
        body <= b.len(),
    ensures
        (r.0@, r.1) == struct_block(b@, body as int, len as int, kind, little),
        r.1 ==> body + len <= b.len(),
{
    let mut reader = Reader {
        events: Vec::new(),
        pos: body,
        stop: Stop::Going,
        cam_type: 0,
        lens: 0,
        name_start: body,
        name_len: 0,
        counted: 0,
    };
    let ids = id_items();
    reader.read_items(b, &ids, little);
    let name_start = reader.name_start;
    let name_len = reader.name_len;
    reader.events.push(BlendEvent::Name { start: name_start, len: name_len });
    reader.stop = Stop::Going;
    let items = struct_items(kind);
    reader.read_items(b, &items, little);
    let mut events = reader.events;
    match reader.stop {
        Stop::Short => (events, false),
        Stop::Fault { fault } => {
            events.push(BlendEvent::Fault { fault });
            (events, false)
        },
        Stop::Going => {
            let counted = reader.counted;
            if (len as usize) < counted {
                events.push(BlendEvent::Fault { fault: BlendFault::BodyTooShort });
                return (events, false);
            }
            let rest = len as usize - counted;
            if kind != StructKind::Camera {
                events.push(BlendEvent::Remaining { bytes: rest as u32 });
            }
            if b.len() - reader.pos < rest {
                events.push(BlendEvent::Short { read: b.len() - reader.pos, expected: rest });
                (events, false)
            } else if kind == StructKind::Camera {
                events.push(
                    BlendEvent::Camera { start: name_start, len: name_len, cam_type: reader.cam_type, lens: reader.lens },
                );
                (events, true)
            } else {
                (events, true)
            }
        },
    }
}

/// Reads the block at `pos`: what it reports, and where the next block
/// starts when reading goes on (see `blocks_from`).
fn read_block(b: &Vec<u8>, pos: usize, little: bool) -> (r: (Vec<BlendEvent>, Option<usize>))
    requires
        pos <= b.len(),
    ensures
        match r.1 {
            Some(next) => pos < next <= b.len() && blocks_from(b@, pos as int, little) == r.0@ + blocks_from(
                b@,
                next as int,
                little,
            ),
            None => blocks_from(b@, pos as int, little) == r.0@,
        },
{
    let mut events: Vec<BlendEvent> = Vec::new();
    if b.len() - pos < 24 {
        events.push(BlendEvent::Short { read: b.len() - pos, expected: 24 });
        return (events, None);
    }
    let u = latin1_utf8_of(b, pos, pos + 24);
    assert(u@.len() >= 24) by {
        lemma_latin1_utf8_len(b@.subrange(pos as int, pos + 24));
    }
    let len = word(b, pos + 4, true);
    let body = pos + 24;
    if !boundary(&u, 4) {
        events.push(BlendEvent::Fault { fault: BlendFault::CutInsideChar });
        return (events, None);
    }
    let is_endb = u[0] == 69 && u[1] == 78 && u[2] == 68 && u[3] == 66;
    let is_dna1 = u[0] == 68 && u[1] == 78 && u[2] == 65 && u[3] == 49;
    assert(is_endb == (u@.subrange(0, 4) == endb())) by {
        if is_endb {
            assert(u@.subrange(0, 4) =~= endb());
        }
    }
    assert(is_dna1 == (u@.subrange(0, 4) == dna1())) by {
        if is_dna1 {
            assert(u@.subrange(0, 4) =~= dna1());
        }
    }
    if is_endb && len == 0 {
        events.push(BlendEvent::End);
        return (events, None);
    }
    if is_dna1 {
        events.push(BlendEvent::Dna);
        return (events, None);
    }
    if !boundary(&u, 2) {
        events.push(BlendEvent::Fault { fault: BlendFault::CutInsideChar });
        return (events, None);
    }
    let kind = if u[0] == 67 && u[1] == 65 {
        Some(StructKind::Camera)
    } else if u[0] == 79 && u[1] == 66 {
        Some(StructKind::Object)
    } else if u[0] == 77 && u[1] == 65 {
        Some(StructKind::Material)
    } else if u[0] == 77 && u[1] == 69 {
        Some(StructKind::Mesh)
    } else {
        None
    };
    assert(kind == struct_kind(u@));
    match kind {
        None => {
            if b.len() - body < len as usize {
                events.push(BlendEvent::Short { read: b.len() - body, expected: len as usize });
                return (events, None);
            }
            assert(events@ =~= Seq::<BlendEvent>::empty());
            (events, Some(body + len as usize))
        },
        Some(k) => {
            let (evs, go) = read_struct_block(b, body, len, k, little);
            if go {
                (evs, Some(body + len as usize))
            } else {
                (evs, None)
            }
        },
    }
}

/// Reads the blocks from `start` on (see `blocks_from`), up to and
/// including a fault where one is met.
fn scan_blocks(b: &Vec<u8>, start: usize, little: bool) -> (events: Vec<BlendEvent>)
    requires
        start <= b.len(),
    ensures
        events@ == blocks_from(b@, start as int, little),
{
    let mut events: Vec<BlendEvent> = Vec::new();
    let mut pos = start;
    loop
        invariant
            pos <= b.len(),
            blocks_from(b@, start as int, little) == events@ + blocks_from(b@, pos as int, little),
        decreases b.len() - pos,
    {
        let (mut evs, next) = read_block(b, pos, little);
        let ghost before = events@;
        let ghost taken = evs@;
        events.append(&mut evs);
        assert(events@ =~= before + taken);
        match next {
            Some(n) => {
                assert(before + (taken + blocks_from(b@, n as int, little)) =~= events@ + blocks_from(
                    b@,
                    n as int,
                    little,
                ));
                pos = n;
            },
            None => {
                return events;
            },
        }
    }
}

/// Whether reading the blocks from `pos` meets no fault: no code is cut
/// inside a character, no kind is out of its range and no body is shorter
/// than the struct read from it. Only such files are read.
pub open spec fn reads_through(b: Seq<u8>, pos: int, little: bool) -> bool {
    forall|i: int| 0 <= i < blocks_from(b, pos, little).len() ==> !(#[trigger] blocks_from(b, pos, little)[i] is Fault)
}

/// Reads the blocks from `start` on (see `blocks_from`), a float reported
/// by its bits in the byte order of the file (`little`: least significant
/// byte first). The blocks must be readable through (see `reads_through`).
pub fn read_blocks(b: &Vec<u8>, start: usize, little: bool) -> (events: Vec<BlendEvent>)
    requires
        start <= b.len(),
        reads_through(b@, start as int, little),
    ensures
        events@ == blocks_from(b@, start as int, little),
{
    scan_blocks(b, start, little)
}

/// Whether the blocks from `start` on can be read through (see
/// `reads_through`).
pub fn blocks_read_through(b: &Vec<u8>, start: usize, little: bool) -> (ok: bool)
    requires
        start <= b.len(),
    ensures
        ok == reads_through(b@, start as int, little),
{
    let events = scan_blocks(b, start, little);
    proof {
        lemma_blocks_end_with_stop(b@, start as int, little);
    }
    let last = events[events.len() - 1];
    let ok = match last {
        BlendEvent::Fault { .. } => false,
        _ => true,
    };
    proof {
        let evs = blocks_from(b@, start as int, little);
        if ok {
            assert forall|i: int| 0 <= i < evs.len() implies !(#[trigger] evs[i] is Fault) by {
                if i < evs.len() - 1 {
                    assert(!only_last(evs[i]));
                }
            }
        } else {
            assert(evs[evs.len() - 1] is Fault);
        }
    }
    ok
}

/// Whether the event tells why reading stopped: a shortfall, the end block,
/// the `DNA1` block or a fault.
pub open spec fn is_stop(e: BlendEvent) -> bool {
    e is Short || e is End || e is Dna || e is Fault
}

/// Whether the event can only come last: the end block, the `DNA1` block or
/// a fault.
pub open spec fn only_last(e: BlendEvent) -> bool {
    e is End || e is Dna || e is Fault
}

/// None of the events from `from` on can only come last.
pub open spec fn none_only_last(evs: Seq<BlendEvent>, from: int) -> bool {
    forall|i: int| from <= i < evs.len() ==> !only_last(#[trigger] evs[i])
}

proof fn lemma_read_items_events(b: Seq<u8>, p: Progress, items: Seq<Item>, little: bool)
    ensures
        ({
            let r = read_items(b, p, items, little);
            &&& r.events.len() >= p.events.len()
            &&& r.events.subrange(0, p.events.len() as int) == p.events
            &&& forall|i: int| p.events.len() <= i < r.events.len() ==> !only_last(#[trigger] r.events[i])
            &&& (p.stop == Stop::Going && r.stop == Stop::Short) ==> r.events.len() > p.events.len() && r.events.last() is Short
            &&& p.stop != Stop::Going ==> r == p
            &&& p.pos <= b.len() ==> p.pos <= r.pos <= b.len() && r.counted - p.counted <= r.pos - p.pos
        }),
    decreases items.len(),
{
    if items.len() > 0 && p.stop == Stop::Going {
        let q = step_item(b, p, items[0], little);
        let avail = b.len() - p.pos;
        if avail >= 0 {
            match items[0] {
                Item::Skip { size, .. } => {
                    let sz = size as int;
                    assert((avail / sz) * sz <= avail) by (nonlinear_arith)
                        requires
                            avail >= 0,
                            sz >= 0,
                    {
                        if sz > 0 {
                            assert(avail == (avail / sz) * sz + avail % sz);
                        }
                    }
                },
                _ => {},
            }
        }
        lemma_read_items_events(b, q, items.drop_first(), little);
        let r = read_items(b, p, items, little);
        assert(q.events.len() >= p.events.len());
        assert(q.events.subrange(0, p.events.len() as int) =~= p.events);
        assert(r.events.subrange(0, p.events.len() as int) =~= p.events) by {
            assert(r.events.subrange(0, q.events.len() as int) == q.events);
        }
        assert forall|i: int| p.events.len() <= i < r.events.len() implies !only_last(#[trigger] r.events[i]) by {
            if i < q.events.len() {
                assert(r.events.subrange(0, q.events.len() as int)[i] == r.events[i]);
            }
        }
    }
}

/// Reading the body of a struct block adds no event that can only come
/// last, but possibly as its last one; when reading does not go on, its
/// last event tells why.
proof fn lemma_struct_block_events(b: Seq<u8>, body: int, len: int, kind: StructKind, little: bool)
    ensures
        ({
            let (evs, go) = struct_block(b, body, len, kind, little);
            &&& go ==> none_only_last(evs, 0)
            &&& go && 0 <= body <= b.len() ==> body + len <= b.len()
            &&& !go ==> evs.len() > 0 && is_stop(evs.last()) && forall|i: int|
                0 <= i < evs.len() - 1 ==> !only_last(#[trigger] evs[i])
        }),
{
    let id = read_items(b, fresh_progress(body), id_layout(), little);
    lemma_read_items_events(b, fresh_progress(body), id_layout(), little);
    let named = id.events.push(BlendEvent::Name { start: id.name_start as usize, len: id.name_len as usize });
    let start = Progress { events: named, stop: Stop::Going, ..id };
    lemma_read_items_events(b, start, struct_layout(kind), little);
    let st = read_items(b, start, struct_layout(kind), little);
    assert forall|i: int| 0 <= i < st.events.len() implies !only_last(#[trigger] st.events[i]) by {
        if i < named.len() {
            assert(st.events.subrange(0, named.len() as int)[i] == st.events[i]);
            if i < id.events.len() {
                assert(named[i] == id.events[i]);
            }
        }
    }
}

/// Reading the blocks always ends by telling why it stopped (a shortfall,
/// the end block, the `DNA1` block or a fault), and the end block, the
/// `DNA1` block and faults come only last.
pub proof fn lemma_blocks_end_with_stop(b: Seq<u8>, pos: int, little: bool)
    requires
        0 <= pos <= b.len(),
    ensures
        blocks_from(b, pos, little).len() > 0,
        is_stop(blocks_from(b, pos, little).last()),
        forall|i: int|
            0 <= i < blocks_from(b, pos, little).len() - 1 ==> !only_last(#[trigger] blocks_from(b, pos, little)[i]),
    decreases b.len() - pos,
{
    let evs = blocks_from(b, pos, little);
    if b.len() - pos >= 24 {
        let u = latin1_utf8(b.subrange(pos, pos + 24));
        let len = word_at(b, pos + 4, true) as int;
        let body = pos + 24;
        if is_boundary(u, 4) && !(u.subrange(0, 4) == endb() && len == 0) && u.subrange(0, 4) != dna1()
            && is_boundary(u, 2) {
            match struct_kind(u) {
                None => {
                    if b.len() - body >= len {
                        lemma_blocks_end_with_stop(b, body + len, little);
                    }
                },
                Some(k) => {
                    lemma_struct_block_events(b, body, len, k, little);
                    let (first, go) = struct_block(b, body, len, k, little);
                    if go && body + len <= b.len() {
                        lemma_blocks_end_with_stop(b, body + len, little);
                        let rest = blocks_from(b, body + len, little);
                        assert(evs == first + rest);
                        assert(evs.last() == rest.last());
                        assert forall|i: int| 0 <= i < evs.len() - 1 implies !only_last(#[trigger] evs[i]) by {
                            if i < first.len() {
                                assert(evs[i] == first[i]);
                            } else {
                                assert(evs[i] == rest[i - first.len()]);
                            }
                        }
                    }
                },
            }
        }
    }
}

/// The event with the positions in the file that it reports moved on by
/// `k` bytes.
pub open spec fn shifted_event(e: BlendEvent, k: int) -> BlendEvent {
    match e {
        BlendEvent::Name { start, len } => BlendEvent::Name { start: (start + k) as usize, len },
        BlendEvent::Camera { start, len, cam_type, lens } => BlendEvent::Camera {
            start: (start + k) as usize,
            len,
            cam_type,
            lens,
        },
        _ => e,
    }
}

/// The events with the positions they report moved on by `k` bytes.
pub open spec fn shifted(evs: Seq<BlendEvent>, k: int) -> Seq<BlendEvent> {
    evs.map_values(|e: BlendEvent| shifted_event(e, k))
}

/// The progress with its positions moved on by `k` bytes.
pub open spec fn shifted_progress(p: Progress, k: int) -> Progress {
    Progress { events: shifted(p.events, k), pos: p.pos + k, name_start: p.name_start + k, ..p }
}

proof fn lemma_shifted_push(evs: Seq<BlendEvent>, e: BlendEvent, k: int)
    ensures
        shifted(evs.push(e), k) == shifted(evs, k).push(shifted_event(e, k)),
{
    assert(shifted(evs.push(e), k) =~= shifted(evs, k).push(shifted_event(e, k)));
}

proof fn lemma_shifted_add(a: Seq<BlendEvent>, c: Seq<BlendEvent>, k: int)
    ensures
        shifted(a + c, k) == shifted(a, k) + shifted(c, k),
{
    assert(shifted(a + c, k) =~= shifted(a, k) + shifted(c, k));
}

proof fn lemma_word_shift(pre: Seq<u8>, rest: Seq<u8>, at: int, little: bool)
    requires
        0 <= at,
        at + 4 <= rest.len(),
    ensures
        word_at(pre + rest, at + pre.len(), little) == word_at(rest, at, little),
{
    let s = pre + rest;
    let k = pre.len() as int;
    assert(s[at + k] == rest[at]);
    assert(s[at + k + 1] == rest[at + 1]);
    assert(s[at + k + 2] == rest[at + 2]);
    assert(s[at + k + 3] == rest[at + 3]);
}

proof fn lemma_half_shift(pre: Seq<u8>, rest: Seq<u8>, at: int, little: bool)
    requires
        0 <= at,
        at + 2 <= rest.len(),
    ensures
        half_at(pre + rest, at + pre.len(), little) == half_at(rest, at, little),
{
    let s = pre + rest;
    let k = pre.len() as int;
    assert(s[at + k] == rest[at]);
    assert(s[at + k + 1] == rest[at + 1]);
}

proof fn lemma_step_item_pos(b: Seq<u8>, p: Progress, it: Item, little: bool)
    requires
        0 <= p.pos <= b.len(),
    ensures
        p.pos <= step_item(b, p, it, little).pos <= b.len(),
{
    match it {
        Item::Skip { size, count } => {
            assert(size * count >= 0) by (nonlinear_arith);
        },
        _ => {},
    }
}

#[verifier::rlimit(40)]
proof fn lemma_step_item_shift(pre: Seq<u8>, rest: Seq<u8>, p: Progress, it: Item, little: bool)
    requires
        0 <= p.pos <= rest.len(),
    ensures
        step_item(pre + rest, shifted_progress(p, pre.len() as int), it, little) == shifted_progress(
            step_item(rest, p, it, little),
            pre.len() as int,
        ),
{
    let s = pre + rest;
    let k = pre.len() as int;
    let q = shifted_progress(p, k);
    let avail = rest.len() - p.pos;
    let n = item_size(it);
    let at = p.pos;
    if avail < n {
        lemma_shifted_push(p.events, short_of(it, avail), k);
    } else {
        match it {
            Item::Name { .. } => {
                assert(s.subrange(at + k, at + k + n) =~= rest.subrange(at, at + n));
            },
            Item::Lens => {
                lemma_word_shift(pre, rest, at, little);
            },
            Item::Words { field, count } => {
                if count > 0 {
                    lemma_word_shift(pre, rest, at, little);
                }
                if count > 1 {
                    lemma_word_shift(pre, rest, at + 4, little);
                }
                if count > 2 {
                    lemma_word_shift(pre, rest, at + 8, little);
                }
                if count > 3 {
                    lemma_word_shift(pre, rest, at + 12, little);
                }
                let r = step_item(rest, p, it, little);
                lemma_shifted_push(p.events, r.events.last(), k);
                assert(r.events == p.events.push(r.events.last()));
            },
            Item::Row { .. } => {
                lemma_word_shift(pre, rest, at, little);
                lemma_word_shift(pre, rest, at + 4, little);
                lemma_word_shift(pre, rest, at + 8, little);
                lemma_word_shift(pre, rest, at + 12, little);
                let r = step_item(rest, p, it, little);
                lemma_shifted_push(p.events, r.events.last(), k);
                assert(r.events == p.events.push(r.events.last()));
            },
            Item::Kind { field, .. } => {
                lemma_half_shift(pre, rest, at, little);
                let raw = half_at(rest, at, little);
                lemma_shifted_push(p.events, BlendEvent::Kind { field, value: raw }, k);
            },
            _ => {},
        }
    }
}

proof fn lemma_read_items_shift(pre: Seq<u8>, rest: Seq<u8>, p: Progress, items: Seq<Item>, little: bool)
    requires
        0 <= p.pos <= rest.len(),
    ensures
        read_items(pre + rest, shifted_progress(p, pre.len() as int), items, little) == shifted_progress(
            read_items(rest, p, items, little),
            pre.len() as int,
        ),
    decreases items.len(),
{
    if items.len() > 0 && p.stop == Stop::Going {
        lemma_step_item_shift(pre, rest, p, items[0], little);
        let q = step_item(rest, p, items[0], little);
        lemma_step_item_pos(rest, p, items[0], little);
        lemma_read_items_shift(pre, rest, q, items.drop_first(), little);
    }
}

proof fn lemma_name_start_in_file(b: Seq<u8>, p: Progress, items: Seq<Item>, little: bool)
    requires
        0 <= p.name_start <= b.len(),
        0 <= p.pos <= b.len(),
    ensures
        0 <= read_items(b, p, items, little).name_start <= b.len(),
    decreases items.len(),
{
    if items.len() > 0 && p.stop == Stop::Going {
        let q = step_item(b, p, items[0], little);
        lemma_step_item_pos(b, p, items[0], little);
        lemma_name_start_in_file(b, q, items.drop_first(), little);
    }
}

proof fn lemma_struct_block_shift(pre: Seq<u8>, rest: Seq<u8>, body: int, len: int, kind: StructKind, little: bool)
    requires
        0 <= body <= rest.len(),
        pre.len() + rest.len() <= usize::MAX,
    ensures
        ({
            let (evs, go) = struct_block(rest, body, len, kind, little);
            struct_block(pre + rest, body + pre.len(), len, kind, little) == (shifted(evs, pre.len() as int), go)
        }),
{
    let s = pre + rest;
    let k = pre.len() as int;
    assert(fresh_progress(body + k) == shifted_progress(fresh_progress(body), k)) by {
        assert(shifted(Seq::<BlendEvent>::empty(), k) =~= Seq::<BlendEvent>::empty());
    }
    lemma_read_items_shift(pre, rest, fresh_progress(body), id_layout(), little);
    let id = read_items(rest, fresh_progress(body), id_layout(), little);
    let id_s = read_items(s, fresh_progress(body + k), id_layout(), little);
    lemma_name_start_in_file(rest, fresh_progress(body), id_layout(), little);
    lemma_read_items_events(rest, fresh_progress(body), id_layout(), little);
    let name = BlendEvent::Name { start: id.name_start as usize, len: id.name_len as usize };
    let named = id.events.push(name);
    lemma_shifted_push(id.events, name, k);
    assert(shifted_event(name, k) == BlendEvent::Name { start: id_s.name_start as usize, len: id_s.name_len as usize });
    let start = Progress { events: named, stop: Stop::Going, ..id };
    assert(Progress { events: id_s.events.push(shifted_event(name, k)), stop: Stop::Going, ..id_s }
        == shifted_progress(start, k));
    lemma_read_items_shift(pre, rest, start, struct_layout(kind), little);
    let st = read_items(rest, start, struct_layout(kind), little);
    lemma_read_items_events(rest, start, struct_layout(kind), little);
    match st.stop {
        Stop::Fault { fault } => {
            lemma_shifted_push(st.events, BlendEvent::Fault { fault }, k);
        },
        Stop::Going => {
            lemma_shifted_push(st.events, BlendEvent::Fault { fault: BlendFault::BodyTooShort }, k);
            let rem = BlendEvent::Remaining { bytes: (len - st.counted) as u32 };
            lemma_shifted_push(st.events, rem, k);
            let evs = if kind == StructKind::Camera {
                st.events
            } else {
                st.events.push(rem)
            };
            let short = BlendEvent::Short {
                read: (rest.len() - st.pos) as usize,
                expected: (len - st.counted) as usize,
            };
            lemma_shifted_push(evs, short, k);
            let cam = BlendEvent::Camera {
                start: id.name_start as usize,
                len: id.name_len as usize,
                cam_type: st.cam_type,
                lens: st.lens,
            };
            lemma_shifted_push(evs, cam, k);
        },
        _ => {},
    }
}

/// What is read from a position does not depend on the bytes before it,
/// but for the positions in the file that it reports: reading the blocks of
/// `pre + rest` from `pos` past `pre` reports what reading `rest` from
/// `pos` does, each position moved on by the length of `pre`.
pub proof fn lemma_blocks_shift(pre: Seq<u8>, rest: Seq<u8>, pos: int, little: bool)
    requires
        0 <= pos <= rest.len(),
        pre.len() + rest.len() <= usize::MAX,
    ensures
        blocks_from(pre + rest, pos + pre.len(), little) == shifted(blocks_from(rest, pos, little), pre.len() as int),
    decreases rest.len() - pos,
{
    let s = pre + rest;
    let k = pre.len() as int;
    let evs = blocks_from(rest, pos, little);
    assert forall|i: int| 0 <= i < rest.len() implies #[trigger] s[i + k] == rest[i] by {}
    if rest.len() - pos < 24 {
        assert(shifted(evs, k) =~= evs);
    } else {
        assert(s.subrange(pos + k, pos + k + 24) =~= rest.subrange(pos, pos + 24));
        assert(word_at(s, pos + k + 4, true) == word_at(rest, pos + 4, true));
        let u = latin1_utf8(rest.subrange(pos, pos + 24));
        let len = word_at(rest, pos + 4, true) as int;
        let body = pos + 24;
        if !is_boundary(u, 4) || (u.subrange(0, 4) == endb() && len == 0) || u.subrange(0, 4) == dna1()
            || !is_boundary(u, 2) {
            assert(shifted(evs, k) =~= evs);
        } else {
            match struct_kind(u) {
                None => {
                    if rest.len() - body < len {
                        assert(shifted(evs, k) =~= evs);
                    } else {
                        lemma_blocks_shift(pre, rest, body + len, little);
                    }
                },
                Some(kind) => {
                    lemma_struct_block_shift(pre, rest, body, len, kind, little);
                    let (first, go) = struct_block(rest, body, len, kind, little);
                    if go && body + len <= rest.len() {
                        lemma_blocks_shift(pre, rest, body + len, little);
                        lemma_shifted_add(first, blocks_from(rest, body + len, little), k);
                    }
                },
            }
        }
    }
}

/// A block of a kind that is not read (no camera, object, material or
/// mesh, no `DNA1` block and no end block), whose code is not cut inside a
/// character, is passed over whole: reading `head + body + rest` reports
/// what reading `rest` alone does, its positions moved on by the length of
/// the block.
pub proof fn lemma_other_block_passed_over(head: Seq<u8>, body: Seq<u8>, rest: Seq<u8>, little: bool)
    requires
        head.len() == 24,
        body.len() == word_at(head, 4, true),
        head.len() + body.len() + rest.len() <= usize::MAX,
        is_boundary(latin1_utf8(head), 4),
        is_boundary(latin1_utf8(head), 2),
        !(latin1_utf8(head).subrange(0, 4) == endb() && body.len() == 0),
        latin1_utf8(head).subrange(0, 4) != dna1(),
        struct_kind(latin1_utf8(head)) is None,
    ensures
        blocks_from(head + body + rest, 0, little) == shifted(blocks_from(rest, 0, little), 24 + body.len() as int),
{
    let s = head + body + rest;
    assert(s.subrange(0, 24) =~= head);
    assert(word_at(s, 4, true) == word_at(head, 4, true));
    assert(s =~= (head + body) + rest);
    lemma_blocks_shift(head + body, rest, 0, little);
}

pub(crate) proof fn lemma_latin1_utf8_len(raw: Seq<u8>)
    ensures
        latin1_utf8(raw).len() >= raw.len(),
    decreases raw.len(),
{
    if raw.len() > 0 {
        lemma_latin1_utf8_len(raw.drop_last());
    }
}

/// What the 12-byte header of a file says.
#[derive(Clone, Copy, Debug, PartialEq, Eq, Structural)]
pub enum HeaderCheck {
    /// The file holds only `read` bytes, fewer than twelve.
    Short { read: usize },
    /// Taken as Latin-1 text, the header cannot be cut after seven
    /// characters without cutting a character.
    CutInsideChar,
    /// The header does not start with `BLENDER`.
    NotBlender,
    /// A Blender file. `eighth` is the eighth byte of the header's UTF-8
    /// form; pointers take 4 bytes when it is `_` and 8 otherwise; numbers
    /// are stored least significant byte first when the ninth is `v`; the
    /// version is formed by the bytes `v0`, `v1`, `v2` (10th to 12th), which
    /// are UTF-8 text when `version_ok`.
    Blender { eighth: u8, pointers_4: bool, little_endian: bool, version_ok: bool, v0: u8, v1: u8, v2: u8 },
}

/// The characters `BLENDER`.
pub open spec fn blender() -> Seq<u8> {
    seq![66u8, 76u8, 69u8, 78u8, 68u8, 69u8, 82u8]
}

/// What the first twelve bytes of `b` say, taken as Latin-1 text.
pub open spec fn header_check(b: Seq<u8>) -> HeaderCheck {
    if b.len() < 12 {
        HeaderCheck::Short { read: b.len() as usize }
    } else {
        let u = latin1_utf8(b.subrange(0, 12));
        if !is_boundary(u, 7) {
            HeaderCheck::CutInsideChar
        } else if u.subrange(0, 7) != blender() {
            HeaderCheck::NotBlender
        } else {
            HeaderCheck::Blender {
                eighth: u[7],
                pointers_4: u[7] == 95,
                little_endian: u[8] == 118,
                version_ok: is_boundary(u, 9) && is_boundary(u, 12),
                v0: u[9],
                v1: u[10],
                v2: u[11],
            }
        }
    }
}

/// Reads the header of a file (see `header_check`).
pub fn check_header(b: &Vec<u8>) -> (h: HeaderCheck)
    ensures
        h == header_check(b@),
{
    if b.len() < 12 {
        return HeaderCheck::Short { read: b.len() };
    }
    let u = latin1_utf8_of(b, 0, 12);
    assert(u@.len() >= 12) by {
        lemma_latin1_utf8_len(b@.subrange(0, 12));
    }
    if !boundary(&u, 7) {
        return HeaderCheck::CutInsideChar;
    }
    let is_blender = u[0] == 66 && u[1] == 76 && u[2] == 69 && u[3] == 78 && u[4] == 68 && u[5] == 69 && u[6]
        == 82;
    assert(is_blender == (u@.subrange(0, 7) == blender())) by {
        if is_blender {
            assert(u@.subrange(0, 7) =~= blender());
        }
    }
    if !is_blender {
        return HeaderCheck::NotBlender;
    }
    HeaderCheck::Blender {
        eighth: u[7],
        pointers_4: u[7] == 95,
        little_endian: u[8] == 118,
        version_ok: boundary(&u, 9) && boundary(&u, 12),
        v0: u[9],
        v1: u[10],
        v2: u[11],
    }
}

/// Whether pointers on this machine (`ptr_size` bytes) differ in size from
/// those of the file (4 bytes when `pointers_4`, 8 otherwise).
pub fn pointer_size_differs(pointers_4: bool, ptr_size: usize) -> (differs: bool)
    ensures
        differs == if pointers_4 {
            ptr_size != 4
        } else {
            ptr_size != 8
        },
{
    if pointers_4 {
        ptr_size != 4
    } else {
        ptr_size != 8
    }
}

/// Whether the byte order of the file differs from the machine's.
pub fn switch_endian(file_little: bool, host_little: bool) -> (switch: bool)
    ensures
        switch == (file_little != host_little),
{
    if file_little {
        !host_little
    } else {
        host_little
    }
}

/// Whether the blocks are read: the version is text, pointers take 8 bytes
/// both here and in the file, and the byte orders agree.
pub open spec fn blocks_readable(version_ok: bool, ptr_size: usize, differs: bool, switch: bool) -> bool {
    version_ok && ptr_size == 8 && !differs && !switch
}

/// What reading a file found: the header, the machine's pointer size and
/// byte order, and, where they were read, the blocks.
pub struct BlendReport {
    pub header: HeaderCheck,
    pub pointer_size: usize,
    pub host_little: bool,
    pub pointer_size_differs: bool,
    pub switch_endian: bool,
    pub blocks: Option<Vec<BlendEvent>>,
}

/// Whether a Blender file held in `b` can be read on a machine whose byte
/// order is little-endian when `host_little`: its header is not cut inside
/// a character, the version of a Blender file is text, and where the blocks
/// are read (see `blocks_readable`) they can be read through.
pub open spec fn blend_file_readable(b: Seq<u8>, host_little: bool) -> bool {
    match header_check(b) {
        HeaderCheck::CutInsideChar => false,
        HeaderCheck::Blender { pointers_4, little_endian, version_ok, .. } => {
            let ptr = vstd::layout::size_of::<usize>();
            let differs = if pointers_4 {
                ptr != 4
            } else {
                ptr != 8
            };
            version_ok && (ptr == 8 && !differs && little_endian == host_little ==> reads_through(
                b,
                12,
                little_endian,
            ))
        },
        _ => true,
    }
}

/// Whether the file can be read on this machine (see
/// `blend_file_readable`).
pub fn can_read_blend_file(b: &Vec<u8>) -> (ok: bool)
    ensures
        ok == blend_file_readable(b@, host_is_little()),
{
    let header = check_header(b);
    let ptr_size = pointer_size();
    let host_little = host_little_endian();
    match header {
        HeaderCheck::CutInsideChar => false,
        HeaderCheck::Blender { pointers_4, little_endian, version_ok, .. } => {
            let differs = pointer_size_differs(pointers_4, ptr_size);
            if !version_ok {
                false
            } else if ptr_size == 8 && !differs && little_endian == host_little {
                blocks_read_through(b, 12, little_endian)
            } else {
                true
            }
        },
        _ => true,
    }
}

/// Reads a Blender file held in `b`: its header, then, where this machine
/// can take the file's pointers and byte order as they are, its blocks.
pub fn read_blend_file(b: &Vec<u8>) -> (r: BlendReport)
    requires
        blend_file_readable(b@, host_is_little()),
    ensures
        r.header == header_check(b@),
        r.host_little == host_is_little(),
        r.pointer_size == 4 || r.pointer_size == 8,
        r.pointer_size as nat == vstd::layout::size_of::<usize>(),
        match r.header {
            HeaderCheck::Blender { pointers_4, little_endian, version_ok, .. } => {
                &&& r.pointer_size_differs == if pointers_4 {
                    r.pointer_size != 4
                } else {
                    r.pointer_size != 8
                }
                &&& r.switch_endian == (little_endian != r.host_little)
                &&& match r.blocks {
                    Some(events) => blocks_readable(version_ok, r.pointer_size, r.pointer_size_differs, r.switch_endian)
                        && events@ == blocks_from(b@, 12, little_endian),
                    None => !blocks_readable(version_ok, r.pointer_size, r.pointer_size_differs, r.switch_endian),
                }
            },
            _ => r.blocks is None,
        },
{
    let header = check_header(b);
    let ptr_size = pointer_size();
    let host_little = host_little_endian();
    match header {
        HeaderCheck::Blender { pointers_4, little_endian, version_ok, .. } => {
            let differs = pointer_size_differs(pointers_4, ptr_size);
            let switch = switch_endian(little_endian, host_little);
            let blocks = if version_ok && ptr_size == 8 && !differs && !switch {
                Some(read_blocks(b, 12, little_endian))
            } else {
                None
            };
            BlendReport {
                header,
                pointer_size: ptr_size,
                host_little,
                pointer_size_differs: differs,
                switch_endian: switch,
                blocks,
            }
        },
        _ => BlendReport {
            header,
            pointer_size: ptr_size,
            host_little,
            pointer_size_differs: false,
            switch_endian: false,
            blocks: None,
        },
    }
}

/// How many bytes the items read in all.
pub open spec fn total_size(items: Seq<Item>) -> int
    decreases items.len(),
{
    if items.len() == 0 {
        0
    } else {
        item_size(items[0]) + total_size(items.drop_first())
    }
}

/// The event that reading the item at `at` reports when all its bytes are
/// there, if it reports one.
spec fn item_event(b: Seq<u8>, at: int, it: Item, little: bool) -> Seq<BlendEvent> {
    match it {
        Item::Words { field, count } => seq![
            BlendEvent::Words {
                field,
                row: 0,
                count,
                w0: if count > 0 { word_at(b, at, little) } else { 0 },
                w1: if count > 1 { word_at(b, at + 4, little) } else { 0 },
                w2: if count > 2 { word_at(b, at + 8, little) } else { 0 },
                w3: if count > 3 { word_at(b, at + 12, little) } else { 0 },
            },
        ],
        Item::Row { field, row } => seq![
            BlendEvent::Words {
                field,
                row,
                count: 4,
                w0: word_at(b, at, little),
                w1: word_at(b, at + 4, little),
                w2: word_at(b, at + 8, little),
                w3: word_at(b, at + 12, little),
            },
        ],
        Item::Kind { field, .. } => seq![BlendEvent::Kind { field, value: half_at(b, at, little) }],
        _ => Seq::empty(),
    }
}

/// The events of items read one after the other from `at`, all of whose
/// bytes are there.
spec fn fit_events(b: Seq<u8>, at: int, items: Seq<Item>, little: bool) -> Seq<BlendEvent>
    decreases items.len(),
{
    if items.len() == 0 {
        Seq::empty()
    } else {
        item_event(b, at, items[0], little) + fit_events(b, at + item_size(items[0]), items.drop_first(), little)
    }
}

/// No kind read by the items from `at` is out of its range.
spec fn kinds_in_range(b: Seq<u8>, at: int, items: Seq<Item>, little: bool) -> bool
    decreases items.len(),
{
    if items.len() == 0 {
        true
    } else {
        (match items[0] {
            Item::Kind { max, .. } => half_at(b, at, little) <= max,
            _ => true,
        }) && kinds_in_range(b, at + item_size(items[0]), items.drop_first(), little)
    }
}

proof fn lemma_sizes_nonnegative(items: Seq<Item>)
    ensures
        total_size(items) >= 0,
        items.len() > 0 ==> item_size(items[0]) >= 0,
    decreases items.len(),
{
    if items.len() > 0 {
        match items[0] {
            Item::Skip { size, count } => {
                assert(size * count >= 0) by (nonlinear_arith);
            },
            _ => {},
        }
        lemma_sizes_nonnegative(items.drop_first());
    }
}

/// When all bytes of the items are there and no kind is out of range, the
/// items are read whole: each reports its event, the position moves on by
/// their size, and reading goes on.
#[verifier::spinoff_prover]
#[verifier::rlimit(100)]
proof fn lemma_read_items_fit(b: Seq<u8>, p: Progress, items: Seq<Item>, little: bool)
    requires
        p.stop == Stop::Going,
        0 <= p.pos,
        p.pos + total_size(items) <= b.len(),
        kinds_in_range(b, p.pos, items, little),
    ensures
        read_items(b, p, items, little).events == p.events + fit_events(b, p.pos, items, little),
        read_items(b, p, items, little).pos == p.pos + total_size(items),
        read_items(b, p, items, little).stop == Stop::Going,
    decreases items.len(),
{
    if items.len() == 0 {
        assert(p.events + Seq::<BlendEvent>::empty() =~= p.events);
    } else {
        let it = items[0];
        let rest = items.drop_first();
        lemma_sizes_nonnegative(items);
        lemma_sizes_nonnegative(rest);
        let q = step_item(b, p, it, little);
        assert(q.pos == p.pos + item_size(it));
        assert(q.stop == Stop::Going);
        assert(q.events == p.events + item_event(b, p.pos, it, little)) by {
            match it {
                Item::Words { .. } => {
                    assert(q.events =~= p.events + item_event(b, p.pos, it, little));
                },
                Item::Row { .. } => {
                    assert(q.events =~= p.events + item_event(b, p.pos, it, little));
                },
                Item::Kind { .. } => {
                    assert(q.events =~= p.events + item_event(b, p.pos, it, little));
                },
                _ => {
                    assert(q.events =~= p.events + item_event(b, p.pos, it, little));
                },
            }
        }
        lemma_read_items_fit(b, q, rest, little);
        assert(p.events + item_event(b, p.pos, it, little) + fit_events(b, q.pos, rest, little) =~= p.events
            + fit_events(b, p.pos, items, little));
    }
}

/// The word of `field` (a single word) read at `at`.
pub open spec fn word_event(b: Seq<u8>, at: int, field: Field, little: bool) -> BlendEvent {
    BlendEvent::Words { field, row: 0, count: 1, w0: word_at(b, at, little), w1: 0, w2: 0, w3: 0 }
}

/// Reading a mesh block whose struct is there whole reports the name of
/// the mesh, then its six element counts from the words at their places in
/// the body: after the ID (120 bytes), twenty pointers (160 bytes) and the
/// five custom data blocks (1040 bytes), the number of vertices at 1320,
/// of edges at 1324, of faces at 1328, of selected elements at 1332, of
/// polygons at 1336 and of loops at 1340.
/// The ID of a struct whose 120 bytes are there is read whole, reporting
/// nothing.
#[verifier::spinoff_prover]
#[verifier::rlimit(100)]
proof fn lemma_id_fits(b: Seq<u8>, at: int, little: bool)
    requires
        0 <= at,
        at + 120 <= b.len(),
    ensures
        total_size(id_layout()) == 120,
        kinds_in_range(b, at, id_layout(), little),
        fit_events(b, at, id_layout(), little) == Seq::<BlendEvent>::empty(),
{
    let i0 = id_layout();
    let i1: Seq<Item> = seq![Item::Name { size: 66 }, Item::Skip { size: 2, count: 1 }, Item::Skip { size: 4, count: 3 }, Item::Skip { size: 8, count: 1 }];
    assert(i0.drop_first() =~= i1);
    assert(i0[0] == Item::Skip { size: 8, count: 4 });
    assert(item_size(Item::Skip { size: 8, count: 4 }) == 32) by (nonlinear_arith);
    let i2: Seq<Item> = seq![Item::Skip { size: 2, count: 1 }, Item::Skip { size: 4, count: 3 }, Item::Skip { size: 8, count: 1 }];
    assert(i1.drop_first() =~= i2);
    assert(i1[0] == Item::Name { size: 66 });
    let i3: Seq<Item> = seq![Item::Skip { size: 4, count: 3 }, Item::Skip { size: 8, count: 1 }];
    assert(i2.drop_first() =~= i3);
    assert(i2[0] == Item::Skip { size: 2, count: 1 });
    assert(item_size(Item::Skip { size: 2, count: 1 }) == 2) by (nonlinear_arith);
    let i4: Seq<Item> = seq![Item::Skip { size: 8, count: 1 }];
    assert(i3.drop_first() =~= i4);
    assert(i3[0] == Item::Skip { size: 4, count: 3 });
    assert(item_size(Item::Skip { size: 4, count: 3 }) == 12) by (nonlinear_arith);
    let i5: Seq<Item> = Seq::<Item>::empty();
    assert(i4.drop_first() =~= i5);
    assert(i4[0] == Item::Skip { size: 8, count: 1 });
    assert(item_size(Item::Skip { size: 8, count: 1 }) == 8) by (nonlinear_arith);
    assert(total_size(i5) == 0);
    assert(kinds_in_range(b, at + 120, i5, little));
    assert(total_size(i4) == 8);
    assert(kinds_in_range(b, at + 112, i4, little));
    assert(total_size(i3) == 20);
    assert(kinds_in_range(b, at + 100, i3, little));
    assert(total_size(i2) == 22);
    assert(kinds_in_range(b, at + 98, i2, little));
    assert(total_size(i1) == 88);
    assert(kinds_in_range(b, at + 32, i1, little));
    assert(total_size(i0) == 120);
    assert(kinds_in_range(b, at + 0, i0, little));
    assert(fit_events(b, at + 120, i5, little) =~= Seq::<BlendEvent>::empty());
    assert(fit_events(b, at + 112, i4, little) =~= fit_events(b, at + 120, i5, little));
    assert(fit_events(b, at + 100, i3, little) =~= fit_events(b, at + 112, i4, little));
    assert(fit_events(b, at + 98, i2, little) =~= fit_events(b, at + 100, i3, little));
    assert(fit_events(b, at + 32, i1, little) =~= fit_events(b, at + 98, i2, little));
    assert(fit_events(b, at + 0, i0, little) =~= fit_events(b, at + 32, i1, little));
}

/// The fields of a mesh whose 1264 bytes are there are read whole,
/// reporting its six element counts.
#[verifier::spinoff_prover]
#[verifier::rlimit(100)]
proof fn lemma_mesh_fits(b: Seq<u8>, at: int, little: bool)
    requires
        0 <= at,
        at + 1264 <= b.len(),
    ensures
        total_size(mesh_layout()) == 1264,
        kinds_in_range(b, at, mesh_layout(), little),
        fit_events(b, at, mesh_layout(), little) == seq![
            word_event(b, at + 1200, Field::Totvert, little),
            word_event(b, at + 1204, Field::Totedge, little),
            word_event(b, at + 1208, Field::Totface, little),
            word_event(b, at + 1212, Field::Totselect, little),
            word_event(b, at + 1216, Field::Totpoly, little),
            word_event(b, at + 1220, Field::Totloop, little),
        ],
{
    let m0 = mesh_layout();
    let m1: Seq<Item> = seq![Item::Skip { size: 208, count: 5 }, Item::Words { field: Field::Totvert, count: 1 }, Item::Words { field: Field::Totedge, count: 1 }, Item::Words { field: Field::Totface, count: 1 }, Item::Words { field: Field::Totselect, count: 1 }, Item::Words { field: Field::Totpoly, count: 1 }, Item::Words { field: Field::Totloop, count: 1 }, Item::Skip { size: 4, count: 10 }];
    assert(m0.drop_first() =~= m1);
    assert(m0[0] == Item::Skip { size: 8, count: 20 });
    assert(item_size(Item::Skip { size: 8, count: 20 }) == 160) by (nonlinear_arith);
    let m2: Seq<Item> = seq![Item::Words { field: Field::Totvert, count: 1 }, Item::Words { field: Field::Totedge, count: 1 }, Item::Words { field: Field::Totface, count: 1 }, Item::Words { field: Field::Totselect, count: 1 }, Item::Words { field: Field::Totpoly, count: 1 }, Item::Words { field: Field::Totloop, count: 1 }, Item::Skip { size: 4, count: 10 }];
    assert(m1.drop_first() =~= m2);
    assert(m1[0] == Item::Skip { size: 208, count: 5 });
    assert(item_size(Item::Skip { size: 208, count: 5 }) == 1040) by (nonlinear_arith);
    let m3: Seq<Item> = seq![Item::Words { field: Field::Totedge, count: 1 }, Item::Words { field: Field::Totface, count: 1 }, Item::Words { field: Field::Totselect, count: 1 }, Item::Words { field: Field::Totpoly, count: 1 }, Item::Words { field: Field::Totloop, count: 1 }, Item::Skip { size: 4, count: 10 }];
    assert(m2.drop_first() =~= m3);
    assert(m2[0] == Item::Words { field: Field::Totvert, count: 1 });
    let m4: Seq<Item> = seq![Item::Words { field: Field::Totface, count: 1 }, Item::Words { field: Field::Totselect, count: 1 }, Item::Words { field: Field::Totpoly, count: 1 }, Item::Words { field: Field::Totloop, count: 1 }, Item::Skip { size: 4, count: 10 }];
    assert(m3.drop_first() =~= m4);
    assert(m3[0] == Item::Words { field: Field::Totedge, count: 1 });
    let m5: Seq<Item> = seq![Item::Words { field: Field::Totselect, count: 1 }, Item::Words { field: Field::Totpoly, count: 1 }, Item::Words { field: Field::Totloop, count: 1 }, Item::Skip { size: 4, count: 10 }];
    assert(m4.drop_first() =~= m5);
    assert(m4[0] == Item::Words { field: Field::Totface, count: 1 });
    let m6: Seq<Item> = seq![Item::Words { field: Field::Totpoly, count: 1 }, Item::Words { field: Field::Totloop, count: 1 }, Item::Skip { size: 4, count: 10 }];
    assert(m5.drop_first() =~= m6);
    assert(m5[0] == Item::Words { field: Field::Totselect, count: 1 });
    let m7: Seq<Item> = seq![Item::Words { field: Field::Totloop, count: 1 }, Item::Skip { size: 4, count: 10 }];
    assert(m6.drop_first() =~= m7);
    assert(m6[0] == Item::Words { field: Field::Totpoly, count: 1 });
    let m8: Seq<Item> = seq![Item::Skip { size: 4, count: 10 }];
    assert(m7.drop_first() =~= m8);
    assert(m7[0] == Item::Words { field: Field::Totloop, count: 1 });
    let m9: Seq<Item> = Seq::<Item>::empty();
    assert(m8.drop_first() =~= m9);
    assert(m8[0] == Item::Skip { size: 4, count: 10 });
    assert(item_size(Item::Skip { size: 4, count: 10 }) == 40) by (nonlinear_arith);
    assert(total_size(m9) == 0);
    assert(kinds_in_range(b, at + 1264, m9, little));
    assert(total_size(m8) == 40);
    assert(kinds_in_range(b, at + 1224, m8, little));
    assert(total_size(m7) == 44);
    assert(kinds_in_range(b, at + 1220, m7, little));
    assert(total_size(m6) == 48);
    assert(kinds_in_range(b, at + 1216, m6, little));
    assert(total_size(m5) == 52);
    assert(kinds_in_range(b, at + 1212, m5, little));
    assert(total_size(m4) == 56);
    assert(kinds_in_range(b, at + 1208, m4, little));
    assert(total_size(m3) == 60);
    assert(kinds_in_range(b, at + 1204, m3, little));
    assert(total_size(m2) == 64);
    assert(kinds_in_range(b, at + 1200, m2, little));
    assert(total_size(m1) == 1104);
    assert(kinds_in_range(b, at + 160, m1, little));
    assert(total_size(m0) == 1264);
    assert(kinds_in_range(b, at + 0, m0, little));
    assert(fit_events(b, at + 1264, m9, little) =~= Seq::<BlendEvent>::empty());
    assert(fit_events(b, at + 1224, m8, little) == item_event(b, at + 1224, m8[0], little) + fit_events(b, at + 1264, m9, little));
    assert(fit_events(b, at + 1220, m7, little) == item_event(b, at + 1220, m7[0], little) + fit_events(b, at + 1224, m8, little));
    assert(fit_events(b, at + 1216, m6, little) == item_event(b, at + 1216, m6[0], little) + fit_events(b, at + 1220, m7, little));
    assert(fit_events(b, at + 1212, m5, little) == item_event(b, at + 1212, m5[0], little) + fit_events(b, at + 1216, m6, little));
    assert(fit_events(b, at + 1208, m4, little) == item_event(b, at + 1208, m4[0], little) + fit_events(b, at + 1212, m5, little));
    assert(fit_events(b, at + 1204, m3, little) == item_event(b, at + 1204, m3[0], little) + fit_events(b, at + 1208, m4, little));
    assert(fit_events(b, at + 1200, m2, little) == item_event(b, at + 1200, m2[0], little) + fit_events(b, at + 1204, m3, little));
    assert(fit_events(b, at + 160, m1, little) == item_event(b, at + 160, m1[0], little) + fit_events(b, at + 1200, m2, little));
    assert(fit_events(b, at + 0, m0, little) == item_event(b, at + 0, m0[0], little) + fit_events(b, at + 160, m1, little));
    assert(fit_events(b, at, m0, little) =~= seq![
        word_event(b, at + 1200, Field::Totvert, little),
        word_event(b, at + 1204, Field::Totedge, little),
        word_event(b, at + 1208, Field::Totface, little),
        word_event(b, at + 1212, Field::Totselect, little),
        word_event(b, at + 1216, Field::Totpoly, little),
        word_event(b, at + 1220, Field::Totloop, little),
    ]);
}

/// Reading a mesh block whose struct is there whole reports the name of
/// the mesh, then its six element counts from the words at their places in
/// the body: after the ID (120 bytes), twenty pointers (160 bytes) and the
/// five custom data blocks (1040 bytes), the number of vertices at 1320,
/// of edges at 1324, of faces at 1328, of selected elements at 1332, of
/// polygons at 1336 and of loops at 1340.
#[verifier::spinoff_prover]
#[verifier::rlimit(100)]
pub proof fn lemma_mesh_counts(b: Seq<u8>, body: int, len: int, little: bool)
    requires
        0 <= body,
        body + 1384 <= b.len(),
    ensures
        ({
            let evs = struct_block(b, body, len, StructKind::Mesh, little).0;
            &&& evs.len() >= 7
            &&& evs[0] is Name
            &&& evs[1] == word_event(b, body + 1320, Field::Totvert, little)
            &&& evs[2] == word_event(b, body + 1324, Field::Totedge, little)
            &&& evs[3] == word_event(b, body + 1328, Field::Totface, little)
            &&& evs[4] == word_event(b, body + 1332, Field::Totselect, little)
            &&& evs[5] == word_event(b, body + 1336, Field::Totpoly, little)
            &&& evs[6] == word_event(b, body + 1340, Field::Totloop, little)
        }),
{
    lemma_id_fits(b, body, little);
    lemma_read_items_fit(b, fresh_progress(body), id_layout(), little);
    let id = read_items(b, fresh_progress(body), id_layout(), little);
    assert(id.events =~= Seq::<BlendEvent>::empty());
    let named = id.events.push(BlendEvent::Name { start: id.name_start as usize, len: id.name_len as usize });
    let start = Progress { events: named, stop: Stop::Going, ..id };
    lemma_mesh_fits(b, body + 120, little);
    lemma_read_items_fit(b, start, mesh_layout(), little);
    let st = read_items(b, start, mesh_layout(), little);
    assert(st.stop == Stop::Going);
    let evs = struct_block(b, body, len, StructKind::Mesh, little).0;
    assert(evs.subrange(0, st.events.len() as int) =~= st.events);
    assert(evs[1] == st.events[1]);
}

proof fn lemma_fit_step(b: Seq<u8>, at: int, items: Seq<Item>, k: int, little: bool)
    requires
        0 <= k < items.len(),
    ensures
        total_size(items.skip(k)) == item_size(items[k]) + total_size(items.skip(k + 1)),
        kinds_in_range(b, at, items.skip(k), little) == ((match items[k] {
            Item::Kind { max, .. } => half_at(b, at, little) <= max,
            _ => true,
        }) && kinds_in_range(b, at + item_size(items[k]), items.skip(k + 1), little)),
        fit_events(b, at, items.skip(k), little) == item_event(b, at, items[k], little) + fit_events(
            b,
            at + item_size(items[k]),
            items.skip(k + 1),
            little,
        ),
{
    assert(items.skip(k).drop_first() =~= items.skip(k + 1));
    assert(items.skip(k)[0] == items[k]);
}

proof fn lemma_middle_of(a: Seq<BlendEvent>, x: Seq<BlendEvent>, evs: Seq<BlendEvent>)
    requires
        evs.len() >= a.len() + x.len(),
        evs.subrange(0, (a.len() + x.len()) as int) == a + x,
    ensures
        evs.subrange(a.len() as int, (a.len() + x.len()) as int) == x,
{
    let n = (a.len() + x.len()) as int;
    assert forall|i: int| 0 <= i < x.len() implies #[trigger] evs.subrange(a.len() as int, n)[i] == x[i] by {
        let j = a.len() + i;
        assert(evs.subrange(0, n)[j] == evs[j]);
        assert((a + x)[j] == x[i]);
    }
    assert(evs.subrange(a.len() as int, n) =~= x);
}

/// What fields 0 to 7 of the layout report, read from their places.
#[verifier::opaque]
pub open spec fn object_layout_events_0(b: Seq<u8>, at: int, little: bool) -> Seq<BlendEvent> {
    Seq::<BlendEvent>::empty()
}

#[verifier::spinoff_prover]
#[verifier::rlimit(100)]
proof fn lemma_object_layout_part_0(b: Seq<u8>, at: int, little: bool)
    requires
        0 <= at,
        at + 828 <= b.len(),
    ensures
        total_size(object_layout().skip(0)) == 312 + total_size(object_layout().skip(8)),
        kinds_in_range(b, at + 0, object_layout().skip(0), little) == kinds_in_range(b, at + 312, object_layout().skip(8), little),
        fit_events(b, at + 0, object_layout().skip(0), little) == object_layout_events_0(b, at, little) + fit_events(b, at + 312, object_layout().skip(8), little),
        object_layout_events_0(b, at, little).len() == 0,
{
    reveal(object_layout_events_0);
    let l = object_layout();
    assert(l.len() == 46);
    assert(l[0] == Item::Skip { size: 8, count: 2 });
    assert(item_size(Item::Skip { size: 8, count: 2 }) == 16) by (nonlinear_arith);
    lemma_fit_step(b, at + 0, l, 0, little);
    assert(l[1] == Item::Skip { size: 2, count: 2 });
    assert(item_size(Item::Skip { size: 2, count: 2 }) == 4) by (nonlinear_arith);
    lemma_fit_step(b, at + 16, l, 1, little);
    assert(l[2] == Item::Skip { size: 4, count: 3 });
    assert(item_size(Item::Skip { size: 4, count: 3 }) == 12) by (nonlinear_arith);
    lemma_fit_step(b, at + 20, l, 2, little);
    assert(l[3] == Item::Skip { size: 64, count: 1 });
    assert(item_size(Item::Skip { size: 64, count: 1 }) == 64) by (nonlinear_arith);
    lemma_fit_step(b, at + 32, l, 3, little);
    assert(l[4] == Item::Skip { size: 8, count: 12 });
    assert(item_size(Item::Skip { size: 8, count: 12 }) == 96) by (nonlinear_arith);
    lemma_fit_step(b, at + 96, l, 4, little);
    assert(l[5] == Item::Skip { size: 48, count: 1 });
    assert(item_size(Item::Skip { size: 48, count: 1 }) == 48) by (nonlinear_arith);
    lemma_fit_step(b, at + 192, l, 5, little);
    assert(l[6] == Item::Skip { size: 8, count: 1 });
    assert(item_size(Item::Skip { size: 8, count: 1 }) == 8) by (nonlinear_arith);
    lemma_fit_step(b, at + 240, l, 6, little);
    assert(l[7] == Item::Skip { size: 64, count: 1 });
    assert(item_size(Item::Skip { size: 64, count: 1 }) == 64) by (nonlinear_arith);
    lemma_fit_step(b, at + 248, l, 7, little);
    assert(Seq::<BlendEvent>::empty() =~= item_event(b, at + 0, l[0], little) + item_event(b, at + 16, l[1], little) + item_event(b, at + 20, l[2], little) + item_event(b, at + 32, l[3], little) + item_event(b, at + 96, l[4], little) + item_event(b, at + 192, l[5], little) + item_event(b, at + 240, l[6], little) + item_event(b, at + 248, l[7], little));
}

/// What fields 8 to 15 of the layout report, read from their places.
#[verifier::opaque]
pub open spec fn object_layout_events_1(b: Seq<u8>, at: int, little: bool) -> Seq<BlendEvent> {
    seq![BlendEvent::Words { field: Field::Loc, row: 0, count: 3, w0: word_at(b, at + 344, little), w1: word_at(b, at + 348, little), w2: word_at(b, at + 352, little), w3: 0 }, BlendEvent::Words { field: Field::Dloc, row: 0, count: 3, w0: word_at(b, at + 356, little), w1: word_at(b, at + 360, little), w2: word_at(b, at + 364, little), w3: 0 }, BlendEvent::Words { field: Field::Orig, row: 0, count: 3, w0: word_at(b, at + 368, little), w1: word_at(b, at + 372, little), w2: word_at(b, at + 376, little), w3: 0 }, BlendEvent::Words { field: Field::Size, row: 0, count: 3, w0: word_at(b, at + 380, little), w1: word_at(b, at + 384, little), w2: word_at(b, at + 388, little), w3: 0 }, BlendEvent::Words { field: Field::Dsize, row: 0, count: 3, w0: word_at(b, at + 392, little), w1: word_at(b, at + 396, little), w2: word_at(b, at + 400, little), w3: 0 }]
}

#[verifier::spinoff_prover]
#[verifier::rlimit(100)]
proof fn lemma_object_layout_part_1(b: Seq<u8>, at: int, little: bool)
    requires
        0 <= at,
        at + 828 <= b.len(),
    ensures
        total_size(object_layout().skip(8)) == 92 + total_size(object_layout().skip(16)),
        kinds_in_range(b, at + 312, object_layout().skip(8), little) == kinds_in_range(b, at + 404, object_layout().skip(16), little),
        fit_events(b, at + 312, object_layout().skip(8), little) == object_layout_events_1(b, at, little) + fit_events(b, at + 404, object_layout().skip(16), little),
        object_layout_events_1(b, at, little).len() == 5,
{
    reveal(object_layout_events_1);
    let l = object_layout();
    assert(l.len() == 46);
    assert(l[8] == Item::Skip { size: 4, count: 2 });
    assert(item_size(Item::Skip { size: 4, count: 2 }) == 8) by (nonlinear_arith);
    lemma_fit_step(b, at + 312, l, 8, little);
    assert(l[9] == Item::Skip { size: 8, count: 2 });
    assert(item_size(Item::Skip { size: 8, count: 2 }) == 16) by (nonlinear_arith);
    lemma_fit_step(b, at + 320, l, 9, little);
    assert(l[10] == Item::Skip { size: 4, count: 2 });
    assert(item_size(Item::Skip { size: 4, count: 2 }) == 8) by (nonlinear_arith);
    lemma_fit_step(b, at + 336, l, 10, little);
    assert(l[11] == Item::Words { field: Field::Loc, count: 3 });
    lemma_fit_step(b, at + 344, l, 11, little);
    assert(l[12] == Item::Words { field: Field::Dloc, count: 3 });
    lemma_fit_step(b, at + 356, l, 12, little);
    assert(l[13] == Item::Words { field: Field::Orig, count: 3 });
    lemma_fit_step(b, at + 368, l, 13, little);
    assert(l[14] == Item::Words { field: Field::Size, count: 3 });
    lemma_fit_step(b, at + 380, l, 14, little);
    assert(l[15] == Item::Words { field: Field::Dsize, count: 3 });
    lemma_fit_step(b, at + 392, l, 15, little);
    assert(seq![BlendEvent::Words { field: Field::Loc, row: 0, count: 3, w0: word_at(b, at + 344, little), w1: word_at(b, at + 348, little), w2: word_at(b, at + 352, little), w3: 0 }, BlendEvent::Words { field: Field::Dloc, row: 0, count: 3, w0: word_at(b, at + 356, little), w1: word_at(b, at + 360, little), w2: word_at(b, at + 364, little), w3: 0 }, BlendEvent::Words { field: Field::Orig, row: 0, count: 3, w0: word_at(b, at + 368, little), w1: word_at(b, at + 372, little), w2: word_at(b, at + 376, little), w3: 0 }, BlendEvent::Words { field: Field::Size, row: 0, count: 3, w0: word_at(b, at + 380, little), w1: word_at(b, at + 384, little), w2: word_at(b, at + 388, little), w3: 0 }, BlendEvent::Words { field: Field::Dsize, row: 0, count: 3, w0: word_at(b, at + 392, little), w1: word_at(b, at + 396, little), w2: word_at(b, at + 400, little), w3: 0 }] =~= item_event(b, at + 312, l[8], little) + item_event(b, at + 320, l[9], little) + item_event(b, at + 336, l[10], little) + item_event(b, at + 344, l[11], little) + item_event(b, at + 356, l[12], little) + item_event(b, at + 368, l[13], little) + item_event(b, at + 380, l[14], little) + item_event(b, at + 392, l[15], little));
}

/// What fields 16 to 23 of the layout report, read from their places.
#[verifier::opaque]
pub open spec fn object_layout_events_2(b: Seq<u8>, at: int, little: bool) -> Seq<BlendEvent> {
    seq![BlendEvent::Words { field: Field::Dscale, row: 0, count: 3, w0: word_at(b, at + 404, little), w1: word_at(b, at + 408, little), w2: word_at(b, at + 412, little), w3: 0 }, BlendEvent::Words { field: Field::Rot, row: 0, count: 3, w0: word_at(b, at + 416, little), w1: word_at(b, at + 420, little), w2: word_at(b, at + 424, little), w3: 0 }, BlendEvent::Words { field: Field::Drot, row: 0, count: 3, w0: word_at(b, at + 428, little), w1: word_at(b, at + 432, little), w2: word_at(b, at + 436, little), w3: 0 }, BlendEvent::Words { field: Field::Quat, row: 0, count: 4, w0: word_at(b, at + 440, little), w1: word_at(b, at + 444, little), w2: word_at(b, at + 448, little), w3: word_at(b, at + 452, little) }, BlendEvent::Words { field: Field::Dquat, row: 0, count: 4, w0: word_at(b, at + 456, little), w1: word_at(b, at + 460, little), w2: word_at(b, at + 464, little), w3: word_at(b, at + 468, little) }, BlendEvent::Words { field: Field::RotAxis, row: 0, count: 3, w0: word_at(b, at + 472, little), w1: word_at(b, at + 476, little), w2: word_at(b, at + 480, little), w3: 0 }, BlendEvent::Words { field: Field::DrotAxis, row: 0, count: 3, w0: word_at(b, at + 484, little), w1: word_at(b, at + 488, little), w2: word_at(b, at + 492, little), w3: 0 }, BlendEvent::Words { field: Field::RotAngle, row: 0, count: 1, w0: word_at(b, at + 496, little), w1: 0, w2: 0, w3: 0 }]
}

#[verifier::spinoff_prover]
#[verifier::rlimit(100)]
proof fn lemma_object_layout_part_2(b: Seq<u8>, at: int, little: bool)
    requires
        0 <= at,
        at + 828 <= b.len(),
    ensures
        total_size(object_layout().skip(16)) == 96 + total_size(object_layout().skip(24)),
        kinds_in_range(b, at + 404, object_layout().skip(16), little) == kinds_in_range(b, at + 500, object_layout().skip(24), little),
        fit_events(b, at + 404, object_layout().skip(16), little) == object_layout_events_2(b, at, little) + fit_events(b, at + 500, object_layout().skip(24), little),
        object_layout_events_2(b, at, little).len() == 8,
{
    reveal(object_layout_events_2);
    let l = object_layout();
    assert(l.len() == 46);
    assert(l[16] == Item::Words { field: Field::Dscale, count: 3 });
    lemma_fit_step(b, at + 404, l, 16, little);
    assert(l[17] == Item::Words { field: Field::Rot, count: 3 });
    lemma_fit_step(b, at + 416, l, 17, little);
    assert(l[18] == Item::Words { field: Field::Drot, count: 3 });
    lemma_fit_step(b, at + 428, l, 18, little);
    assert(l[19] == Item::Words { field: Field::Quat, count: 4 });
    lemma_fit_step(b, at + 440, l, 19, little);
    assert(l[20] == Item::Words { field: Field::Dquat, count: 4 });
    lemma_fit_step(b, at + 456, l, 20, little);
    assert(l[21] == Item::Words { field: Field::RotAxis, count: 3 });
    lemma_fit_step(b, at + 472, l, 21, little);
    assert(l[22] == Item::Words { field: Field::DrotAxis, count: 3 });
    lemma_fit_step(b, at + 484, l, 22, little);
    assert(l[23] == Item::Words { field: Field::RotAngle, count: 1 });
    lemma_fit_step(b, at + 496, l, 23, little);
    assert(seq![BlendEvent::Words { field: Field::Dscale, row: 0, count: 3, w0: word_at(b, at + 404, little), w1: word_at(b, at + 408, little), w2: word_at(b, at + 412, little), w3: 0 }, BlendEvent::Words { field: Field::Rot, row: 0, count: 3, w0: word_at(b, at + 416, little), w1: word_at(b, at + 420, little), w2: word_at(b, at + 424, little), w3: 0 }, BlendEvent::Words { field: Field::Drot, row: 0, count: 3, w0: word_at(b, at + 428, little), w1: word_at(b, at + 432, little), w2: word_at(b, at + 436, little), w3: 0 }, BlendEvent::Words { field: Field::Quat, row: 0, count: 4, w0: word_at(b, at + 440, little), w1: word_at(b, at + 444, little), w2: word_at(b, at + 448, little), w3: word_at(b, at + 452, little) }, BlendEvent::Words { field: Field::Dquat, row: 0, count: 4, w0: word_at(b, at + 456, little), w1: word_at(b, at + 460, little), w2: word_at(b, at + 464, little), w3: word_at(b, at + 468, little) }, BlendEvent::Words { field: Field::RotAxis, row: 0, count: 3, w0: word_at(b, at + 472, little), w1: word_at(b, at + 476, little), w2: word_at(b, at + 480, little), w3: 0 }, BlendEvent::Words { field: Field::DrotAxis, row: 0, count: 3, w0: word_at(b, at + 484, little), w1: word_at(b, at + 488, little), w2: word_at(b, at + 492, little), w3: 0 }, BlendEvent::Words { field: Field::RotAngle, row: 0, count: 1, w0: word_at(b, at + 496, little), w1: 0, w2: 0, w3: 0 }] =~= item_event(b, at + 404, l[16], little) + item_event(b, at + 416, l[17], little) + item_event(b, at + 428, l[18], little) + item_event(b, at + 440, l[19], little) + item_event(b, at + 456, l[20], little) + item_event(b, at + 472, l[21], little) + item_event(b, at + 484, l[22], little) + item_event(b, at + 496, l[23], little));
}

/// What fields 24 to 31 of the layout report, read from their places.
#[verifier::opaque]
pub open spec fn object_layout_events_3(b: Seq<u8>, at: int, little: bool) -> Seq<BlendEvent> {
    seq![BlendEvent::Words { field: Field::DrotAngle, row: 0, count: 1, w0: word_at(b, at + 500, little), w1: 0, w2: 0, w3: 0 }, BlendEvent::Words { field: Field::Obmat, row: 0, count: 4, w0: word_at(b, at + 504, little), w1: word_at(b, at + 508, little), w2: word_at(b, at + 512, little), w3: word_at(b, at + 516, little) }, BlendEvent::Words { field: Field::Obmat, row: 1, count: 4, w0: word_at(b, at + 520, little), w1: word_at(b, at + 524, little), w2: word_at(b, at + 528, little), w3: word_at(b, at + 532, little) }, BlendEvent::Words { field: Field::Obmat, row: 2, count: 4, w0: word_at(b, at + 536, little), w1: word_at(b, at + 540, little), w2: word_at(b, at + 544, little), w3: word_at(b, at + 548, little) }, BlendEvent::Words { field: Field::Obmat, row: 3, count: 4, w0: word_at(b, at + 552, little), w1: word_at(b, at + 556, little), w2: word_at(b, at + 560, little), w3: word_at(b, at + 564, little) }, BlendEvent::Words { field: Field::Parentinv, row: 0, count: 4, w0: word_at(b, at + 568, little), w1: word_at(b, at + 572, little), w2: word_at(b, at + 576, little), w3: word_at(b, at + 580, little) }, BlendEvent::Words { field: Field::Parentinv, row: 1, count: 4, w0: word_at(b, at + 584, little), w1: word_at(b, at + 588, little), w2: word_at(b, at + 592, little), w3: word_at(b, at + 596, little) }, BlendEvent::Words { field: Field::Parentinv, row: 2, count: 4, w0: word_at(b, at + 600, little), w1: word_at(b, at + 604, little), w2: word_at(b, at + 608, little), w3: word_at(b, at + 612, little) }]
}

#[verifier::spinoff_prover]
#[verifier::rlimit(100)]
proof fn lemma_object_layout_part_3(b: Seq<u8>, at: int, little: bool)
    requires
        0 <= at,
        at + 828 <= b.len(),
    ensures
        total_size(object_layout().skip(24)) == 116 + total_size(object_layout().skip(32)),
        kinds_in_range(b, at + 500, object_layout().skip(24), little) == kinds_in_range(b, at + 616, object_layout().skip(32), little),
        fit_events(b, at + 500, object_layout().skip(24), little) == object_layout_events_3(b, at, little) + fit_events(b, at + 616, object_layout().skip(32), little),
        object_layout_events_3(b, at, little).len() == 8,
{
    reveal(object_layout_events_3);
    let l = object_layout();
    assert(l.len() == 46);
    assert(l[24] == Item::Words { field: Field::DrotAngle, count: 1 });
    lemma_fit_step(b, at + 500, l, 24, little);
    assert(l[25] == Item::Row { field: Field::Obmat, row: 0 });
    lemma_fit_step(b, at + 504, l, 25, little);
    assert(l[26] == Item::Row { field: Field::Obmat, row: 1 });
    lemma_fit_step(b, at + 520, l, 26, little);
    assert(l[27] == Item::Row { field: Field::Obmat, row: 2 });
    lemma_fit_step(b, at + 536, l, 27, little);
    assert(l[28] == Item::Row { field: Field::Obmat, row: 3 });
    lemma_fit_step(b, at + 552, l, 28, little);
    assert(l[29] == Item::Row { field: Field::Parentinv, row: 0 });
    lemma_fit_step(b, at + 568, l, 29, little);
    assert(l[30] == Item::Row { field: Field::Parentinv, row: 1 });
    lemma_fit_step(b, at + 584, l, 30, little);
    assert(l[31] == Item::Row { field: Field::Parentinv, row: 2 });
    lemma_fit_step(b, at + 600, l, 31, little);
    assert(seq![BlendEvent::Words { field: Field::DrotAngle, row: 0, count: 1, w0: word_at(b, at + 500, little), w1: 0, w2: 0, w3: 0 }, BlendEvent::Words { field: Field::Obmat, row: 0, count: 4, w0: word_at(b, at + 504, little), w1: word_at(b, at + 508, little), w2: word_at(b, at + 512, little), w3: word_at(b, at + 516, little) }, BlendEvent::Words { field: Field::Obmat, row: 1, count: 4, w0: word_at(b, at + 520, little), w1: word_at(b, at + 524, little), w2: word_at(b, at + 528, little), w3: word_at(b, at + 532, little) }, BlendEvent::Words { field: Field::Obmat, row: 2, count: 4, w0: word_at(b, at + 536, little), w1: word_at(b, at + 540, little), w2: word_at(b, at + 544, little), w3: word_at(b, at + 548, little) }, BlendEvent::Words { field: Field::Obmat, row: 3, count: 4, w0: word_at(b, at + 552, little), w1: word_at(b, at + 556, little), w2: word_at(b, at + 560, little), w3: word_at(b, at + 564, little) }, BlendEvent::Words { field: Field::Parentinv, row: 0, count: 4, w0: word_at(b, at + 568, little), w1: word_at(b, at + 572, little), w2: word_at(b, at + 576, little), w3: word_at(b, at + 580, little) }, BlendEvent::Words { field: Field::Parentinv, row: 1, count: 4, w0: word_at(b, at + 584, little), w1: word_at(b, at + 588, little), w2: word_at(b, at + 592, little), w3: word_at(b, at + 596, little) }, BlendEvent::Words { field: Field::Parentinv, row: 2, count: 4, w0: word_at(b, at + 600, little), w1: word_at(b, at + 604, little), w2: word_at(b, at + 608, little), w3: word_at(b, at + 612, little) }] =~= item_event(b, at + 500, l[24], little) + item_event(b, at + 504, l[25], little) + item_event(b, at + 520, l[26], little) + item_event(b, at + 536, l[27], little) + item_event(b, at + 552, l[28], little) + item_event(b, at + 568, l[29], little) + item_event(b, at + 584, l[30], little) + item_event(b, at + 600, l[31], little));
}

/// What fields 32 to 39 of the layout report, read from their places.
#[verifier::opaque]
pub open spec fn object_layout_events_4(b: Seq<u8>, at: int, little: bool) -> Seq<BlendEvent> {
    seq![BlendEvent::Words { field: Field::Parentinv, row: 3, count: 4, w0: word_at(b, at + 616, little), w1: word_at(b, at + 620, little), w2: word_at(b, at + 624, little), w3: word_at(b, at + 628, little) }, BlendEvent::Words { field: Field::Constinv, row: 0, count: 4, w0: word_at(b, at + 632, little), w1: word_at(b, at + 636, little), w2: word_at(b, at + 640, little), w3: word_at(b, at + 644, little) }, BlendEvent::Words { field: Field::Constinv, row: 1, count: 4, w0: word_at(b, at + 648, little), w1: word_at(b, at + 652, little), w2: word_at(b, at + 656, little), w3: word_at(b, at + 660, little) }, BlendEvent::Words { field: Field::Constinv, row: 2, count: 4, w0: word_at(b, at + 664, little), w1: word_at(b, at + 668, little), w2: word_at(b, at + 672, little), w3: word_at(b, at + 676, little) }, BlendEvent::Words { field: Field::Constinv, row: 3, count: 4, w0: word_at(b, at + 680, little), w1: word_at(b, at + 684, little), w2: word_at(b, at + 688, little), w3: word_at(b, at + 692, little) }, BlendEvent::Words { field: Field::Imat, row: 0, count: 4, w0: word_at(b, at + 696, little), w1: word_at(b, at + 700, little), w2: word_at(b, at + 704, little), w3: word_at(b, at + 708, little) }, BlendEvent::Words { field: Field::Imat, row: 1, count: 4, w0: word_at(b, at + 712, little), w1: word_at(b, at + 716, little), w2: word_at(b, at + 720, little), w3: word_at(b, at + 724, little) }, BlendEvent::Words { field: Field::Imat, row: 2, count: 4, w0: word_at(b, at + 728, little), w1: word_at(b, at + 732, little), w2: word_at(b, at + 736, little), w3: word_at(b, at + 740, little) }]
}

#[verifier::spinoff_prover]
#[verifier::rlimit(100)]
proof fn lemma_object_layout_part_4(b: Seq<u8>, at: int, little: bool)
    requires
        0 <= at,
        at + 828 <= b.len(),
    ensures
        total_size(object_layout().skip(32)) == 128 + total_size(object_layout().skip(40)),
        kinds_in_range(b, at + 616, object_layout().skip(32), little) == kinds_in_range(b, at + 744, object_layout().skip(40), little),
        fit_events(b, at + 616, object_layout().skip(32), little) == object_layout_events_4(b, at, little) + fit_events(b, at + 744, object_layout().skip(40), little),
        object_layout_events_4(b, at, little).len() == 8,
{
    reveal(object_layout_events_4);
    let l = object_layout();
    assert(l.len() == 46);
    assert(l[32] == Item::Row { field: Field::Parentinv, row: 3 });
    lemma_fit_step(b, at + 616, l, 32, little);
    assert(l[33] == Item::Row { field: Field::Constinv, row: 0 });
    lemma_fit_step(b, at + 632, l, 33, little);
    assert(l[34] == Item::Row { field: Field::Constinv, row: 1 });
    lemma_fit_step(b, at + 648, l, 34, little);
    assert(l[35] == Item::Row { field: Field::Constinv, row: 2 });
    lemma_fit_step(b, at + 664, l, 35, little);
    assert(l[36] == Item::Row { field: Field::Constinv, row: 3 });
    lemma_fit_step(b, at + 680, l, 36, little);
    assert(l[37] == Item::Row { field: Field::Imat, row: 0 });
    lemma_fit_step(b, at + 696, l, 37, little);
    assert(l[38] == Item::Row { field: Field::Imat, row: 1 });
    lemma_fit_step(b, at + 712, l, 38, little);
    assert(l[39] == Item::Row { field: Field::Imat, row: 2 });
    lemma_fit_step(b, at + 728, l, 39, little);
    assert(seq![BlendEvent::Words { field: Field::Parentinv, row: 3, count: 4, w0: word_at(b, at + 616, little), w1: word_at(b, at + 620, little), w2: word_at(b, at + 624, little), w3: word_at(b, at + 628, little) }, BlendEvent::Words { field: Field::Constinv, row: 0, count: 4, w0: word_at(b, at + 632, little), w1: word_at(b, at + 636, little), w2: word_at(b, at + 640, little), w3: word_at(b, at + 644, little) }, BlendEvent::Words { field: Field::Constinv, row: 1, count: 4, w0: word_at(b, at + 648, little), w1: word_at(b, at + 652, little), w2: word_at(b, at + 656, little), w3: word_at(b, at + 660, little) }, BlendEvent::Words { field: Field::Constinv, row: 2, count: 4, w0: word_at(b, at + 664, little), w1: word_at(b, at + 668, little), w2: word_at(b, at + 672, little), w3: word_at(b, at + 676, little) }, BlendEvent::Words { field: Field::Constinv, row: 3, count: 4, w0: word_at(b, at + 680, little), w1: word_at(b, at + 684, little), w2: word_at(b, at + 688, little), w3: word_at(b, at + 692, little) }, BlendEvent::Words { field: Field::Imat, row: 0, count: 4, w0: word_at(b, at + 696, little), w1: word_at(b, at + 700, little), w2: word_at(b, at + 704, little), w3: word_at(b, at + 708, little) }, BlendEvent::Words { field: Field::Imat, row: 1, count: 4, w0: word_at(b, at + 712, little), w1: word_at(b, at + 716, little), w2: word_at(b, at + 720, little), w3: word_at(b, at + 724, little) }, BlendEvent::Words { field: Field::Imat, row: 2, count: 4, w0: word_at(b, at + 728, little), w1: word_at(b, at + 732, little), w2: word_at(b, at + 736, little), w3: word_at(b, at + 740, little) }] =~= item_event(b, at + 616, l[32], little) + item_event(b, at + 632, l[33], little) + item_event(b, at + 648, l[34], little) + item_event(b, at + 664, l[35], little) + item_event(b, at + 680, l[36], little) + item_event(b, at + 696, l[37], little) + item_event(b, at + 712, l[38], little) + item_event(b, at + 728, l[39], little));
}

/// What fields 40 to 45 of the layout report, read from their places.
#[verifier::opaque]
pub open spec fn object_layout_events_5(b: Seq<u8>, at: int, little: bool) -> Seq<BlendEvent> {
    seq![BlendEvent::Words { field: Field::Imat, row: 3, count: 4, w0: word_at(b, at + 744, little), w1: word_at(b, at + 748, little), w2: word_at(b, at + 752, little), w3: word_at(b, at + 756, little) }, BlendEvent::Words { field: Field::ImatRen, row: 0, count: 4, w0: word_at(b, at + 760, little), w1: word_at(b, at + 764, little), w2: word_at(b, at + 768, little), w3: word_at(b, at + 772, little) }, BlendEvent::Words { field: Field::ImatRen, row: 1, count: 4, w0: word_at(b, at + 776, little), w1: word_at(b, at + 780, little), w2: word_at(b, at + 784, little), w3: word_at(b, at + 788, little) }, BlendEvent::Words { field: Field::ImatRen, row: 2, count: 4, w0: word_at(b, at + 792, little), w1: word_at(b, at + 796, little), w2: word_at(b, at + 800, little), w3: word_at(b, at + 804, little) }, BlendEvent::Words { field: Field::ImatRen, row: 3, count: 4, w0: word_at(b, at + 808, little), w1: word_at(b, at + 812, little), w2: word_at(b, at + 816, little), w3: word_at(b, at + 820, little) }, BlendEvent::Words { field: Field::Lay, row: 0, count: 1, w0: word_at(b, at + 824, little), w1: 0, w2: 0, w3: 0 }]
}

#[verifier::spinoff_prover]
#[verifier::rlimit(100)]
proof fn lemma_object_layout_part_5(b: Seq<u8>, at: int, little: bool)
    requires
        0 <= at,
        at + 828 <= b.len(),
    ensures
        total_size(object_layout().skip(40)) == 84 + total_size(object_layout().skip(46)),
        kinds_in_range(b, at + 744, object_layout().skip(40), little) == kinds_in_range(b, at + 828, object_layout().skip(46), little),
        fit_events(b, at + 744, object_layout().skip(40), little) == object_layout_events_5(b, at, little) + fit_events(b, at + 828, object_layout().skip(46), little),
        object_layout_events_5(b, at, little).len() == 6,
{
    reveal(object_layout_events_5);
    let l = object_layout();
    assert(l.len() == 46);
    assert(l[40] == Item::Row { field: Field::Imat, row: 3 });
    lemma_fit_step(b, at + 744, l, 40, little);
    assert(l[41] == Item::Row { field: Field::ImatRen, row: 0 });
    lemma_fit_step(b, at + 760, l, 41, little);
    assert(l[42] == Item::Row { field: Field::ImatRen, row: 1 });
    lemma_fit_step(b, at + 776, l, 42, little);
    assert(l[43] == Item::Row { field: Field::ImatRen, row: 2 });
    lemma_fit_step(b, at + 792, l, 43, little);
    assert(l[44] == Item::Row { field: Field::ImatRen, row: 3 });
    lemma_fit_step(b, at + 808, l, 44, little);
    assert(l[45] == Item::Words { field: Field::Lay, count: 1 });
    lemma_fit_step(b, at + 824, l, 45, little);
    assert(seq![BlendEvent::Words { field: Field::Imat, row: 3, count: 4, w0: word_at(b, at + 744, little), w1: word_at(b, at + 748, little), w2: word_at(b, at + 752, little), w3: word_at(b, at + 756, little) }, BlendEvent::Words { field: Field::ImatRen, row: 0, count: 4, w0: word_at(b, at + 760, little), w1: word_at(b, at + 764, little), w2: word_at(b, at + 768, little), w3: word_at(b, at + 772, little) }, BlendEvent::Words { field: Field::ImatRen, row: 1, count: 4, w0: word_at(b, at + 776, little), w1: word_at(b, at + 780, little), w2: word_at(b, at + 784, little), w3: word_at(b, at + 788, little) }, BlendEvent::Words { field: Field::ImatRen, row: 2, count: 4, w0: word_at(b, at + 792, little), w1: word_at(b, at + 796, little), w2: word_at(b, at + 800, little), w3: word_at(b, at + 804, little) }, BlendEvent::Words { field: Field::ImatRen, row: 3, count: 4, w0: word_at(b, at + 808, little), w1: word_at(b, at + 812, little), w2: word_at(b, at + 816, little), w3: word_at(b, at + 820, little) }, BlendEvent::Words { field: Field::Lay, row: 0, count: 1, w0: word_at(b, at + 824, little), w1: 0, w2: 0, w3: 0 }] =~= item_event(b, at + 744, l[40], little) + item_event(b, at + 760, l[41], little) + item_event(b, at + 776, l[42], little) + item_event(b, at + 792, l[43], little) + item_event(b, at + 808, l[44], little) + item_event(b, at + 824, l[45], little));
}

/// The fields of an object whose 828 bytes are there are read whole,
/// each field reported from its own place (see `object_layout_events`).
#[verifier::spinoff_prover]
#[verifier::rlimit(100)]
proof fn lemma_object_layout_fits(b: Seq<u8>, at: int, little: bool)
    requires
        0 <= at,
        at + 828 <= b.len(),
    ensures
        total_size(object_layout()) == 828,
        kinds_in_range(b, at, object_layout(), little),
        fit_events(b, at, object_layout(), little) == object_layout_events(b, at, little),
        object_layout_events(b, at, little).len() == 35,
{
    let l = object_layout();
    assert(l.len() == 46);
    assert(l.skip(0) =~= l);
    assert(l.skip(46) =~= Seq::<Item>::empty());
    lemma_object_layout_part_0(b, at, little);
    lemma_object_layout_part_1(b, at, little);
    lemma_object_layout_part_2(b, at, little);
    lemma_object_layout_part_3(b, at, little);
    lemma_object_layout_part_4(b, at, little);
    lemma_object_layout_part_5(b, at, little);
    assert(fit_events(b, at + 828, l.skip(46), little) =~= Seq::<BlendEvent>::empty());
    let tail = fit_events(b, at + 744, l.skip(40), little);
    assert(tail =~= tail.subrange(0, tail.len() as int));
    assert(fit_events(b, at, l, little) == object_layout_events(b, at, little)) by {
        assert(tail + Seq::<BlendEvent>::empty() =~= tail);
    }
}

/// What the fields of an object read from `at` report, each from its place:
/// the offsets of the struct's fields, counted from the end of its ID.
pub open spec fn object_layout_events(b: Seq<u8>, at: int, little: bool) -> Seq<BlendEvent> {
    object_layout_events_0(b, at, little) + (
    object_layout_events_1(b, at, little) + (
    object_layout_events_2(b, at, little) + (
    object_layout_events_3(b, at, little) + (
    object_layout_events_4(b, at, little) + (
    object_layout_events_5(b, at, little))))))
}

/// Reading an object block whose struct is there whole reports the name of
/// the object, then each of its fields from the place it has in the body
/// (after the 120 bytes of the ID; see `object_layout_events`).
#[verifier::spinoff_prover]
#[verifier::rlimit(100)]
pub proof fn lemma_object_fields(b: Seq<u8>, body: int, len: int, little: bool)
    requires
        0 <= body,
        body + 120 + 828 <= b.len(),
    ensures
        struct_block(b, body, len, StructKind::Object, little).0.len() >= 36,
        struct_block(b, body, len, StructKind::Object, little).0[0] is Name,
        struct_block(b, body, len, StructKind::Object, little).0.subrange(1, 36) == object_layout_events(
            b,
            body + 120,
            little,
        ),
{
    lemma_id_fits(b, body, little);
    lemma_read_items_fit(b, fresh_progress(body), id_layout(), little);
    let id = read_items(b, fresh_progress(body), id_layout(), little);
    assert(id.events =~= Seq::<BlendEvent>::empty());
    let named = id.events.push(BlendEvent::Name { start: id.name_start as usize, len: id.name_len as usize });
    let start = Progress { events: named, stop: Stop::Going, ..id };
    lemma_object_layout_fits(b, body + 120, little);
    lemma_read_items_fit(b, start, object_layout(), little);
    let st = read_items(b, start, object_layout(), little);
    let x = object_layout_events(b, body + 120, little);
    assert(x.len() == 35);
    assert(st.events == named + x);
    let evs = struct_block(b, body, len, StructKind::Object, little).0;
    assert(evs.subrange(0, st.events.len() as int) =~= st.events);
    assert(evs[0] == st.events[0]);
    lemma_middle_of(named, x, evs);
}

/// What fields 0 to 7 of the layout report, read from their places.
#[verifier::opaque]
pub open spec fn material_layout_events_0(b: Seq<u8>, at: int, little: bool) -> Seq<BlendEvent> {
    seq![BlendEvent::Kind { field: Field::MaterialType, value: half_at(b, at + 8, little) }, BlendEvent::Words { field: Field::R, row: 0, count: 1, w0: word_at(b, at + 12, little), w1: 0, w2: 0, w3: 0 }, BlendEvent::Words { field: Field::G, row: 0, count: 1, w0: word_at(b, at + 16, little), w1: 0, w2: 0, w3: 0 }, BlendEvent::Words { field: Field::B, row: 0, count: 1, w0: word_at(b, at + 20, little), w1: 0, w2: 0, w3: 0 }, BlendEvent::Words { field: Field::Specr, row: 0, count: 1, w0: word_at(b, at + 24, little), w1: 0, w2: 0, w3: 0 }, BlendEvent::Words { field: Field::Specg, row: 0, count: 1, w0: word_at(b, at + 28, little), w1: 0, w2: 0, w3: 0 }]
}

#[verifier::spinoff_prover]
#[verifier::rlimit(100)]
proof fn lemma_material_layout_part_0(b: Seq<u8>, at: int, little: bool)
    requires
        0 <= at,
        at + 436 <= b.len(),
        half_at(b, at + 8, little) <= 3,
    ensures
        total_size(material_layout().skip(0)) == 32 + total_size(material_layout().skip(8)),
        kinds_in_range(b, at + 0, material_layout().skip(0), little) == kinds_in_range(b, at + 32, material_layout().skip(8), little),
        fit_events(b, at + 0, material_layout().skip(0), little) == material_layout_events_0(b, at, little) + fit_events(b, at + 32, material_layout().skip(8), little),
        material_layout_events_0(b, at, little).len() == 6,
{
    reveal(material_layout_events_0);
    let l = material_layout();
    assert(l.len() == 35);
    assert(l[0] == Item::Skip { size: 8, count: 1 });
    assert(item_size(Item::Skip { size: 8, count: 1 }) == 8) by (nonlinear_arith);
    lemma_fit_step(b, at + 0, l, 0, little);
    assert(l[1] == Item::Kind { field: Field::MaterialType, max: 3 });
    lemma_fit_step(b, at + 8, l, 1, little);
    assert(l[2] == Item::Skip { size: 2, count: 1 });
    assert(item_size(Item::Skip { size: 2, count: 1 }) == 2) by (nonlinear_arith);
    lemma_fit_step(b, at + 10, l, 2, little);
    assert(l[3] == Item::Words { field: Field::R, count: 1 });
    lemma_fit_step(b, at + 12, l, 3, little);
    assert(l[4] == Item::Words { field: Field::G, count: 1 });
    lemma_fit_step(b, at + 16, l, 4, little);
    assert(l[5] == Item::Words { field: Field::B, count: 1 });
    lemma_fit_step(b, at + 20, l, 5, little);
    assert(l[6] == Item::Words { field: Field::Specr, count: 1 });
    lemma_fit_step(b, at + 24, l, 6, little);
    assert(l[7] == Item::Words { field: Field::Specg, count: 1 });
    lemma_fit_step(b, at + 28, l, 7, little);
    assert(seq![BlendEvent::Kind { field: Field::MaterialType, value: half_at(b, at + 8, little) }, BlendEvent::Words { field: Field::R, row: 0, count: 1, w0: word_at(b, at + 12, little), w1: 0, w2: 0, w3: 0 }, BlendEvent::Words { field: Field::G, row: 0, count: 1, w0: word_at(b, at + 16, little), w1: 0, w2: 0, w3: 0 }, BlendEvent::Words { field: Field::B, row: 0, count: 1, w0: word_at(b, at + 20, little), w1: 0, w2: 0, w3: 0 }, BlendEvent::Words { field: Field::Specr, row: 0, count: 1, w0: word_at(b, at + 24, little), w1: 0, w2: 0, w3: 0 }, BlendEvent::Words { field: Field::Specg, row: 0, count: 1, w0: word_at(b, at + 28, little), w1: 0, w2: 0, w3: 0 }] =~= item_event(b, at + 0, l[0], little) + item_event(b, at + 8, l[1], little) + item_event(b, at + 10, l[2], little) + item_event(b, at + 12, l[3], little) + item_event(b, at + 16, l[4], little) + item_event(b, at + 20, l[5], little) + item_event(b, at + 24, l[6], little) + item_event(b, at + 28, l[7], little));
}

/// What fields 8 to 15 of the layout report, read from their places.
#[verifier::opaque]
pub open spec fn material_layout_events_1(b: Seq<u8>, at: int, little: bool) -> Seq<BlendEvent> {
    seq![BlendEvent::Words { field: Field::Specb, row: 0, count: 1, w0: word_at(b, at + 32, little), w1: 0, w2: 0, w3: 0 }, BlendEvent::Words { field: Field::Mirr, row: 0, count: 1, w0: word_at(b, at + 36, little), w1: 0, w2: 0, w3: 0 }, BlendEvent::Words { field: Field::Mirg, row: 0, count: 1, w0: word_at(b, at + 40, little), w1: 0, w2: 0, w3: 0 }, BlendEvent::Words { field: Field::Mirb, row: 0, count: 1, w0: word_at(b, at + 44, little), w1: 0, w2: 0, w3: 0 }, BlendEvent::Words { field: Field::Ambr, row: 0, count: 1, w0: word_at(b, at + 48, little), w1: 0, w2: 0, w3: 0 }, BlendEvent::Words { field: Field::Ambg, row: 0, count: 1, w0: word_at(b, at + 52, little), w1: 0, w2: 0, w3: 0 }, BlendEvent::Words { field: Field::Ambb, row: 0, count: 1, w0: word_at(b, at + 56, little), w1: 0, w2: 0, w3: 0 }, BlendEvent::Words { field: Field::Amb, row: 0, count: 1, w0: word_at(b, at + 60, little), w1: 0, w2: 0, w3: 0 }]
}

#[verifier::spinoff_prover]
#[verifier::rlimit(100)]
proof fn lemma_material_layout_part_1(b: Seq<u8>, at: int, little: bool)
    requires
        0 <= at,
        at + 436 <= b.len(),
    ensures
        total_size(material_layout().skip(8)) == 32 + total_size(material_layout().skip(16)),
        kinds_in_range(b, at + 32, material_layout().skip(8), little) == kinds_in_range(b, at + 64, material_layout().skip(16), little),
        fit_events(b, at + 32, material_layout().skip(8), little) == material_layout_events_1(b, at, little) + fit_events(b, at + 64, material_layout().skip(16), little),
        material_layout_events_1(b, at, little).len() == 8,
{
    reveal(material_layout_events_1);
    let l = material_layout();
    assert(l.len() == 35);
    assert(l[8] == Item::Words { field: Field::Specb, count: 1 });
    lemma_fit_step(b, at + 32, l, 8, little);
    assert(l[9] == Item::Words { field: Field::Mirr, count: 1 });
    lemma_fit_step(b, at + 36, l, 9, little);
    assert(l[10] == Item::Words { field: Field::Mirg, count: 1 });
    lemma_fit_step(b, at + 40, l, 10, little);
    assert(l[11] == Item::Words { field: Field::Mirb, count: 1 });
    lemma_fit_step(b, at + 44, l, 11, little);
    assert(l[12] == Item::Words { field: Field::Ambr, count: 1 });
    lemma_fit_step(b, at + 48, l, 12, little);
    assert(l[13] == Item::Words { field: Field::Ambg, count: 1 });
    lemma_fit_step(b, at + 52, l, 13, little);
    assert(l[14] == Item::Words { field: Field::Ambb, count: 1 });
    lemma_fit_step(b, at + 56, l, 14, little);
    assert(l[15] == Item::Words { field: Field::Amb, count: 1 });
    lemma_fit_step(b, at + 60, l, 15, little);
    assert(seq![BlendEvent::Words { field: Field::Specb, row: 0, count: 1, w0: word_at(b, at + 32, little), w1: 0, w2: 0, w3: 0 }, BlendEvent::Words { field: Field::Mirr, row: 0, count: 1, w0: word_at(b, at + 36, little), w1: 0, w2: 0, w3: 0 }, BlendEvent::Words { field: Field::Mirg, row: 0, count: 1, w0: word_at(b, at + 40, little), w1: 0, w2: 0, w3: 0 }, BlendEvent::Words { field: Field::Mirb, row: 0, count: 1, w0: word_at(b, at + 44, little), w1: 0, w2: 0, w3: 0 }, BlendEvent::Words { field: Field::Ambr, row: 0, count: 1, w0: word_at(b, at + 48, little), w1: 0, w2: 0, w3: 0 }, BlendEvent::Words { field: Field::Ambg, row: 0, count: 1, w0: word_at(b, at + 52, little), w1: 0, w2: 0, w3: 0 }, BlendEvent::Words { field: Field::Ambb, row: 0, count: 1, w0: word_at(b, at + 56, little), w1: 0, w2: 0, w3: 0 }, BlendEvent::Words { field: Field::Amb, row: 0, count: 1, w0: word_at(b, at + 60, little), w1: 0, w2: 0, w3: 0 }] =~= item_event(b, at + 32, l[8], little) + item_event(b, at + 36, l[9], little) + item_event(b, at + 40, l[10], little) + item_event(b, at + 44, l[11], little) + item_event(b, at + 48, l[12], little) + item_event(b, at + 52, l[13], little) + item_event(b, at + 56, l[14], little) + item_event(b, at + 60, l[15], little));
}

/// What fields 16 to 23 of the layout report, read from their places.
#[verifier::opaque]
pub open spec fn material_layout_events_2(b: Seq<u8>, at: int, little: bool) -> Seq<BlendEvent> {
    seq![BlendEvent::Words { field: Field::Emit, row: 0, count: 1, w0: word_at(b, at + 64, little), w1: 0, w2: 0, w3: 0 }, BlendEvent::Words { field: Field::Ang, row: 0, count: 1, w0: word_at(b, at + 68, little), w1: 0, w2: 0, w3: 0 }, BlendEvent::Words { field: Field::Spectra, row: 0, count: 1, w0: word_at(b, at + 72, little), w1: 0, w2: 0, w3: 0 }, BlendEvent::Words { field: Field::RayMirror, row: 0, count: 1, w0: word_at(b, at + 76, little), w1: 0, w2: 0, w3: 0 }, BlendEvent::Words { field: Field::Alpha, row: 0, count: 1, w0: word_at(b, at + 80, little), w1: 0, w2: 0, w3: 0 }, BlendEvent::Words { field: Field::Ref, row: 0, count: 1, w0: word_at(b, at + 84, little), w1: 0, w2: 0, w3: 0 }, BlendEvent::Words { field: Field::Spec, row: 0, count: 1, w0: word_at(b, at + 88, little), w1: 0, w2: 0, w3: 0 }, BlendEvent::Words { field: Field::Zoffs, row: 0, count: 1, w0: word_at(b, at + 92, little), w1: 0, w2: 0, w3: 0 }]
}

#[verifier::spinoff_prover]
#[verifier::rlimit(100)]
proof fn lemma_material_layout_part_2(b: Seq<u8>, at: int, little: bool)
    requires
        0 <= at,
        at + 436 <= b.len(),
    ensures
        total_size(material_layout().skip(16)) == 32 + total_size(material_layout().skip(24)),
        kinds_in_range(b, at + 64, material_layout().skip(16), little) == kinds_in_range(b, at + 96, material_layout().skip(24), little),
        fit_events(b, at + 64, material_layout().skip(16), little) == material_layout_events_2(b, at, little) + fit_events(b, at + 96, material_layout().skip(24), little),
        material_layout_events_2(b, at, little).len() == 8,
{
    reveal(material_layout_events_2);
    let l = material_layout();
    assert(l.len() == 35);
    assert(l[16] == Item::Words { field: Field::Emit, count: 1 });
    lemma_fit_step(b, at + 64, l, 16, little);
    assert(l[17] == Item::Words { field: Field::Ang, count: 1 });
    lemma_fit_step(b, at + 68, l, 17, little);
    assert(l[18] == Item::Words { field: Field::Spectra, count: 1 });
    lemma_fit_step(b, at + 72, l, 18, little);
    assert(l[19] == Item::Words { field: Field::RayMirror, count: 1 });
    lemma_fit_step(b, at + 76, l, 19, little);
    assert(l[20] == Item::Words { field: Field::Alpha, count: 1 });
    lemma_fit_step(b, at + 80, l, 20, little);
    assert(l[21] == Item::Words { field: Field::Ref, count: 1 });
    lemma_fit_step(b, at + 84, l, 21, little);
    assert(l[22] == Item::Words { field: Field::Spec, count: 1 });
    lemma_fit_step(b, at + 88, l, 22, little);
    assert(l[23] == Item::Words { field: Field::Zoffs, count: 1 });
    lemma_fit_step(b, at + 92, l, 23, little);
    assert(seq![BlendEvent::Words { field: Field::Emit, row: 0, count: 1, w0: word_at(b, at + 64, little), w1: 0, w2: 0, w3: 0 }, BlendEvent::Words { field: Field::Ang, row: 0, count: 1, w0: word_at(b, at + 68, little), w1: 0, w2: 0, w3: 0 }, BlendEvent::Words { field: Field::Spectra, row: 0, count: 1, w0: word_at(b, at + 72, little), w1: 0, w2: 0, w3: 0 }, BlendEvent::Words { field: Field::RayMirror, row: 0, count: 1, w0: word_at(b, at + 76, little), w1: 0, w2: 0, w3: 0 }, BlendEvent::Words { field: Field::Alpha, row: 0, count: 1, w0: word_at(b, at + 80, little), w1: 0, w2: 0, w3: 0 }, BlendEvent::Words { field: Field::Ref, row: 0, count: 1, w0: word_at(b, at + 84, little), w1: 0, w2: 0, w3: 0 }, BlendEvent::Words { field: Field::Spec, row: 0, count: 1, w0: word_at(b, at + 88, little), w1: 0, w2: 0, w3: 0 }, BlendEvent::Words { field: Field::Zoffs, row: 0, count: 1, w0: word_at(b, at + 92, little), w1: 0, w2: 0, w3: 0 }] =~= item_event(b, at + 64, l[16], little) + item_event(b, at + 68, l[17], little) + item_event(b, at + 72, l[18], little) + item_event(b, at + 76, l[19], little) + item_event(b, at + 80, l[20], little) + item_event(b, at + 84, l[21], little) + item_event(b, at + 88, l[22], little) + item_event(b, at + 92, l[23], little));
}

/// What fields 24 to 31 of the layout report, read from their places.
#[verifier::opaque]
pub open spec fn material_layout_events_3(b: Seq<u8>, at: int, little: bool) -> Seq<BlendEvent> {
    seq![BlendEvent::Words { field: Field::Add, row: 0, count: 1, w0: word_at(b, at + 96, little), w1: 0, w2: 0, w3: 0 }, BlendEvent::Words { field: Field::Translucency, row: 0, count: 1, w0: word_at(b, at + 100, little), w1: 0, w2: 0, w3: 0 }]
}

#[verifier::spinoff_prover]
#[verifier::rlimit(100)]
proof fn lemma_material_layout_part_3(b: Seq<u8>, at: int, little: bool)
    requires
        0 <= at,
        at + 436 <= b.len(),
    ensures
        total_size(material_layout().skip(24)) == 324 + total_size(material_layout().skip(32)),
        kinds_in_range(b, at + 96, material_layout().skip(24), little) == kinds_in_range(b, at + 420, material_layout().skip(32), little),
        fit_events(b, at + 96, material_layout().skip(24), little) == material_layout_events_3(b, at, little) + fit_events(b, at + 420, material_layout().skip(32), little),
        material_layout_events_3(b, at, little).len() == 2,
{
    reveal(material_layout_events_3);
    let l = material_layout();
    assert(l.len() == 35);
    assert(l[24] == Item::Words { field: Field::Add, count: 1 });
    lemma_fit_step(b, at + 96, l, 24, little);
    assert(l[25] == Item::Words { field: Field::Translucency, count: 1 });
    lemma_fit_step(b, at + 100, l, 25, little);
    assert(l[26] == Item::Skip { size: 88, count: 1 });
    assert(item_size(Item::Skip { size: 88, count: 1 }) == 88) by (nonlinear_arith);
    lemma_fit_step(b, at + 104, l, 26, little);
    assert(l[27] == Item::Skip { size: 16, count: 1 });
    assert(item_size(Item::Skip { size: 16, count: 1 }) == 16) by (nonlinear_arith);
    lemma_fit_step(b, at + 192, l, 27, little);
    assert(l[28] == Item::Skip { size: 36, count: 1 });
    assert(item_size(Item::Skip { size: 36, count: 1 }) == 36) by (nonlinear_arith);
    lemma_fit_step(b, at + 208, l, 28, little);
    assert(l[29] == Item::Skip { size: 32, count: 1 });
    assert(item_size(Item::Skip { size: 32, count: 1 }) == 32) by (nonlinear_arith);
    lemma_fit_step(b, at + 244, l, 29, little);
    assert(l[30] == Item::Skip { size: 128, count: 1 });
    assert(item_size(Item::Skip { size: 128, count: 1 }) == 128) by (nonlinear_arith);
    lemma_fit_step(b, at + 276, l, 30, little);
    assert(l[31] == Item::Skip { size: 16, count: 1 });
    assert(item_size(Item::Skip { size: 16, count: 1 }) == 16) by (nonlinear_arith);
    lemma_fit_step(b, at + 404, l, 31, little);
    assert(seq![BlendEvent::Words { field: Field::Add, row: 0, count: 1, w0: word_at(b, at + 96, little), w1: 0, w2: 0, w3: 0 }, BlendEvent::Words { field: Field::Translucency, row: 0, count: 1, w0: word_at(b, at + 100, little), w1: 0, w2: 0, w3: 0 }] =~= item_event(b, at + 96, l[24], little) + item_event(b, at + 100, l[25], little) + item_event(b, at + 104, l[26], little) + item_event(b, at + 192, l[27], little) + item_event(b, at + 208, l[28], little) + item_event(b, at + 244, l[29], little) + item_event(b, at + 276, l[30], little) + item_event(b, at + 404, l[31], little));
}

/// What fields 32 to 34 of the layout report, read from their places.
#[verifier::opaque]
pub open spec fn material_layout_events_4(b: Seq<u8>, at: int, little: bool) -> Seq<BlendEvent> {
    seq![BlendEvent::Kind { field: Field::DiffShader, value: half_at(b, at + 432, little) }, BlendEvent::Kind { field: Field::SpecShader, value: half_at(b, at + 434, little) }]
}

#[verifier::spinoff_prover]
#[verifier::rlimit(100)]
proof fn lemma_material_layout_part_4(b: Seq<u8>, at: int, little: bool)
    requires
        0 <= at,
        at + 436 <= b.len(),
        half_at(b, at + 432, little) <= 4,
        half_at(b, at + 434, little) <= 4,
    ensures
        total_size(material_layout().skip(32)) == 16 + total_size(material_layout().skip(35)),
        kinds_in_range(b, at + 420, material_layout().skip(32), little) == kinds_in_range(b, at + 436, material_layout().skip(35), little),
        fit_events(b, at + 420, material_layout().skip(32), little) == material_layout_events_4(b, at, little) + fit_events(b, at + 436, material_layout().skip(35), little),
        material_layout_events_4(b, at, little).len() == 2,
{
    reveal(material_layout_events_4);
    let l = material_layout();
    assert(l.len() == 35);
    assert(l[32] == Item::Skip { size: 12, count: 1 });
    assert(item_size(Item::Skip { size: 12, count: 1 }) == 12) by (nonlinear_arith);
    lemma_fit_step(b, at + 420, l, 32, little);
    assert(l[33] == Item::Kind { field: Field::DiffShader, max: 4 });
    lemma_fit_step(b, at + 432, l, 33, little);
    assert(l[34] == Item::Kind { field: Field::SpecShader, max: 4 });
    lemma_fit_step(b, at + 434, l, 34, little);
    assert(seq![BlendEvent::Kind { field: Field::DiffShader, value: half_at(b, at + 432, little) }, BlendEvent::Kind { field: Field::SpecShader, value: half_at(b, at + 434, little) }] =~= item_event(b, at + 420, l[32], little) + item_event(b, at + 432, l[33], little) + item_event(b, at + 434, l[34], little));
}

/// The fields of a material whose 436 bytes are there are read whole,
/// each field reported from its own place (see `material_layout_events`).
#[verifier::spinoff_prover]
#[verifier::rlimit(100)]
proof fn lemma_material_layout_fits(b: Seq<u8>, at: int, little: bool)
    requires
        0 <= at,
        at + 436 <= b.len(),
        half_at(b, at + 8, little) <= 3,
        half_at(b, at + 432, little) <= 4,
        half_at(b, at + 434, little) <= 4,
    ensures
        total_size(material_layout()) == 436,
        kinds_in_range(b, at, material_layout(), little),
        fit_events(b, at, material_layout(), little) == material_layout_events(b, at, little),
        material_layout_events(b, at, little).len() == 26,
{
    let l = material_layout();
    assert(l.len() == 35);
    assert(l.skip(0) =~= l);
    assert(l.skip(35) =~= Seq::<Item>::empty());
    lemma_material_layout_part_0(b, at, little);
    lemma_material_layout_part_1(b, at, little);
    lemma_material_layout_part_2(b, at, little);
    lemma_material_layout_part_3(b, at, little);
    lemma_material_layout_part_4(b, at, little);
    assert(fit_events(b, at + 436, l.skip(35), little) =~= Seq::<BlendEvent>::empty());
    let tail = fit_events(b, at + 420, l.skip(32), little);
    assert(tail =~= tail.subrange(0, tail.len() as int));
    assert(fit_events(b, at, l, little) == material_layout_events(b, at, little)) by {
        assert(tail + Seq::<BlendEvent>::empty() =~= tail);
    }
}

/// What the fields of a material read from `at` report, each from its place:
/// the offsets of the struct's fields, counted from the end of its ID.
pub open spec fn material_layout_events(b: Seq<u8>, at: int, little: bool) -> Seq<BlendEvent> {
    material_layout_events_0(b, at, little) + (
    material_layout_events_1(b, at, little) + (
    material_layout_events_2(b, at, little) + (
    material_layout_events_3(b, at, little) + (
    material_layout_events_4(b, at, little)))))
}

/// Reading a material block whose struct is there whole reports the name of
/// the material, then each of its fields from the place it has in the body
/// (after the 120 bytes of the ID; see `material_layout_events`).
#[verifier::spinoff_prover]
#[verifier::rlimit(100)]
pub proof fn lemma_material_fields(b: Seq<u8>, body: int, len: int, little: bool)
    requires
        0 <= body,
        body + 120 + 436 <= b.len(),
        half_at(b, body + 120 + 8, little) <= 3,
        half_at(b, body + 120 + 432, little) <= 4,
        half_at(b, body + 120 + 434, little) <= 4,
    ensures
        struct_block(b, body, len, StructKind::Material, little).0.len() >= 27,
        struct_block(b, body, len, StructKind::Material, little).0[0] is Name,
        struct_block(b, body, len, StructKind::Material, little).0.subrange(1, 27) == material_layout_events(
            b,
            body + 120,
            little,
        ),
{
    lemma_id_fits(b, body, little);
    lemma_read_items_fit(b, fresh_progress(body), id_layout(), little);
    let id = read_items(b, fresh_progress(body), id_layout(), little);
    assert(id.events =~= Seq::<BlendEvent>::empty());
    let named = id.events.push(BlendEvent::Name { start: id.name_start as usize, len: id.name_len as usize });
    let start = Progress { events: named, stop: Stop::Going, ..id };
    lemma_material_layout_fits(b, body + 120, little);
    lemma_read_items_fit(b, start, material_layout(), little);
    let st = read_items(b, start, material_layout(), little);
    let x = material_layout_events(b, body + 120, little);
    assert(x.len() == 26);
    assert(st.events == named + x);
    let evs = struct_block(b, body, len, StructKind::Material, little).0;
    assert(evs.subrange(0, st.events.len() as int) =~= st.events);
    assert(evs[0] == st.events[0]);
    lemma_middle_of(named, x, evs);
}

/// An ID whose 120 bytes are there is read whole: the name is the bytes
/// from 32 on, up to the first zero byte of its 66.
#[verifier::spinoff_prover]
#[verifier::rlimit(100)]
proof fn lemma_id_read(b: Seq<u8>, at: int, little: bool)
    requires
        0 <= at,
        at + 120 <= b.len(),
    ensures
        read_items(b, fresh_progress(at), id_layout(), little) == (Progress {
            events: Seq::empty(),
            pos: at + 120,
            stop: Stop::Going,
            cam_type: 0,
            lens: 0,
            name_start: at + 32,
            name_len: name_length(b.subrange(at + 32, at + 98)),
            counted: 120,
        }),
{
    let il0 = id_layout();
    let ip0 = fresh_progress(at);
    let il1: Seq<Item> = seq![Item::Name { size: 66 }, Item::Skip { size: 2, count: 1 }, Item::Skip { size: 4, count: 3 }, Item::Skip { size: 8, count: 1 }];
    assert(il0.drop_first() =~= il1);
    assert(il0[0] == Item::Skip { size: 8, count: 4 });
    assert(item_size(Item::Skip { size: 8, count: 4 }) == 32) by (nonlinear_arith);
    let ip1 = step_item(b, ip0, Item::Skip { size: 8, count: 4 }, little);
    assert(read_items(b, ip0, il0, little) == read_items(b, ip1, il1, little));
    let il2: Seq<Item> = seq![Item::Skip { size: 2, count: 1 }, Item::Skip { size: 4, count: 3 }, Item::Skip { size: 8, count: 1 }];
    assert(il1.drop_first() =~= il2);
    assert(il1[0] == Item::Name { size: 66 });
    let ip2 = step_item(b, ip1, Item::Name { size: 66 }, little);
    assert(read_items(b, ip1, il1, little) == read_items(b, ip2, il2, little));
    let il3: Seq<Item> = seq![Item::Skip { size: 4, count: 3 }, Item::Skip { size: 8, count: 1 }];
    assert(il2.drop_first() =~= il3);
    assert(il2[0] == Item::Skip { size: 2, count: 1 });
    assert(item_size(Item::Skip { size: 2, count: 1 }) == 2) by (nonlinear_arith);
    let ip3 = step_item(b, ip2, Item::Skip { size: 2, count: 1 }, little);
    assert(read_items(b, ip2, il2, little) == read_items(b, ip3, il3, little));
    let il4: Seq<Item> = seq![Item::Skip { size: 8, count: 1 }];
    assert(il3.drop_first() =~= il4);
    assert(il3[0] == Item::Skip { size: 4, count: 3 });
    assert(item_size(Item::Skip { size: 4, count: 3 }) == 12) by (nonlinear_arith);
    let ip4 = step_item(b, ip3, Item::Skip { size: 4, count: 3 }, little);
    assert(read_items(b, ip3, il3, little) == read_items(b, ip4, il4, little));
    let il5: Seq<Item> = Seq::<Item>::empty();
    assert(il4.drop_first() =~= il5);
    assert(il4[0] == Item::Skip { size: 8, count: 1 });
    assert(item_size(Item::Skip { size: 8, count: 1 }) == 8) by (nonlinear_arith);
    let ip5 = step_item(b, ip4, Item::Skip { size: 8, count: 1 }, little);
    assert(read_items(b, ip4, il4, little) == read_items(b, ip5, il5, little));
}

/// The fields of a camera whose 28 bytes are there are read whole: its
/// type is the byte at 8, its focal length the word at 24.
#[verifier::spinoff_prover]
#[verifier::rlimit(100)]
proof fn lemma_camera_read(b: Seq<u8>, p: Progress, little: bool)
    requires
        p.stop == Stop::Going,
        0 <= p.pos,
        p.pos + 28 <= b.len(),
    ensures
        read_items(b, p, camera_layout(), little) == (Progress {
            pos: p.pos + 28,
            cam_type: b[p.pos + 8],
            lens: word_at(b, p.pos + 24, little),
            counted: p.counted + 28,
            ..p
        }),
{
    let cl0 = camera_layout();
    let cp0 = p;
    let cl1: Seq<Item> = seq![Item::CamType, Item::Skip { size: 1, count: 1 }, Item::Skip { size: 2, count: 1 }, Item::Skip { size: 4, count: 3 }, Item::Lens];
    assert(cl0.drop_first() =~= cl1);
    assert(cl0[0] == Item::Skip { size: 8, count: 1 });
    assert(item_size(Item::Skip { size: 8, count: 1 }) == 8) by (nonlinear_arith);
    let cp1 = step_item(b, cp0, Item::Skip { size: 8, count: 1 }, little);
    assert(read_items(b, cp0, cl0, little) == read_items(b, cp1, cl1, little));
    let cl2: Seq<Item> = seq![Item::Skip { size: 1, count: 1 }, Item::Skip { size: 2, count: 1 }, Item::Skip { size: 4, count: 3 }, Item::Lens];
    assert(cl1.drop_first() =~= cl2);
    assert(cl1[0] == Item::CamType);
    let cp2 = step_item(b, cp1, Item::CamType, little);
    assert(read_items(b, cp1, cl1, little) == read_items(b, cp2, cl2, little));
    let cl3: Seq<Item> = seq![Item::Skip { size: 2, count: 1 }, Item::Skip { size: 4, count: 3 }, Item::Lens];
    assert(cl2.drop_first() =~= cl3);
    assert(cl2[0] == Item::Skip { size: 1, count: 1 });
    assert(item_size(Item::Skip { size: 1, count: 1 }) == 1) by (nonlinear_arith);
    let cp3 = step_item(b, cp2, Item::Skip { size: 1, count: 1 }, little);
    assert(read_items(b, cp2, cl2, little) == read_items(b, cp3, cl3, little));
    let cl4: Seq<Item> = seq![Item::Skip { size: 4, count: 3 }, Item::Lens];
    assert(cl3.drop_first() =~= cl4);
    assert(cl3[0] == Item::Skip { size: 2, count: 1 });
    assert(item_size(Item::Skip { size: 2, count: 1 }) == 2) by (nonlinear_arith);
    let cp4 = step_item(b, cp3, Item::Skip { size: 2, count: 1 }, little);
    assert(read_items(b, cp3, cl3, little) == read_items(b, cp4, cl4, little));
    let cl5: Seq<Item> = seq![Item::Lens];
    assert(cl4.drop_first() =~= cl5);
    assert(cl4[0] == Item::Skip { size: 4, count: 3 });
    assert(item_size(Item::Skip { size: 4, count: 3 }) == 12) by (nonlinear_arith);
    let cp5 = step_item(b, cp4, Item::Skip { size: 4, count: 3 }, little);
    assert(read_items(b, cp4, cl4, little) == read_items(b, cp5, cl5, little));
    let cl6: Seq<Item> = Seq::<Item>::empty();
    assert(cl5.drop_first() =~= cl6);
    assert(cl5[0] == Item::Lens);
    let cp6 = step_item(b, cp5, Item::Lens, little);
    assert(read_items(b, cp5, cl5, little) == read_items(b, cp6, cl6, little));
}

/// Reading a camera block whose struct is there whole, and whose body is
/// there too, reports the name of the camera (the bytes of the ID from 32
/// on, up to the first zero byte of its 66), then the camera: its name, its
/// type (the byte at 128 of the body) and its focal length (the word at
/// 144); reading goes on with the next block.
pub proof fn lemma_camera_fields(b: Seq<u8>, body: int, len: int, little: bool)
    requires
        0 <= body,
        148 <= len,
        body + len <= b.len(),
    ensures
        ({
            let name_len = name_length(b.subrange(body + 32, body + 98));
            struct_block(b, body, len, StructKind::Camera, little) == (
                seq![
                    (BlendEvent::Name { start: (body + 32) as usize, len: name_len as usize }),
                    (BlendEvent::Camera {
                        start: (body + 32) as usize,
                        len: name_len as usize,
                        cam_type: b[body + 128],
                        lens: word_at(b, body + 144, little),
                    }),
                ],
                true,
            )
        }),
{
    lemma_id_read(b, body, little);
    let id = read_items(b, fresh_progress(body), id_layout(), little);
    let named = id.events.push(BlendEvent::Name { start: id.name_start as usize, len: id.name_len as usize });
    let start = Progress { events: named, stop: Stop::Going, ..id };
    lemma_camera_read(b, start, little);
    let st = read_items(b, start, camera_layout(), little);
    assert(st.events == named);
    let r = struct_block(b, body, len, StructKind::Camera, little);
    assert(r.0 =~= named.push(
        BlendEvent::Camera {
            start: id.name_start as usize,
            len: id.name_len as usize,
            cam_type: st.cam_type,
            lens: st.lens,
        },
    ));
}

/// Bytes below 0x80 are their own UTF-8 form.
pub proof fn lemma_latin1_ascii(raw: Seq<u8>)
    requires
        forall|i: int| 0 <= i < raw.len() ==> #[trigger] raw[i] < 0x80,
    ensures
        latin1_utf8(raw) == raw,
    decreases raw.len(),
{
    if raw.len() > 0 {
        lemma_latin1_ascii(raw.drop_last());
        assert(raw.drop_last() + seq![raw.last()] =~= raw);
    }
}

/// A header of twelve bytes below 0x80 is that of a Blender file exactly
/// when it starts with `BLENDER`; then pointers take 4 bytes when its
/// eighth byte is `_`, numbers are stored least significant byte first
/// when its ninth byte is `v`, and the version is its last three bytes.
pub proof fn lemma_ascii_header(b: Seq<u8>)
    requires
        b.len() >= 12,
        forall|i: int| 0 <= i < 12 ==> #[trigger] b[i] < 0x80,
    ensures
        (header_check(b) is Blender) == (b.subrange(0, 7) == blender()),
        header_check(b) is Blender ==> header_check(b) == (HeaderCheck::Blender {
            eighth: b[7],
            pointers_4: b[7] == 95,
            little_endian: b[8] == 118,
            version_ok: true,
            v0: b[9],
            v1: b[10],
            v2: b[11],
        }),
        !(header_check(b) is Blender) ==> header_check(b) == HeaderCheck::NotBlender,
{
    let h = b.subrange(0, 12);
    assert forall|i: int| 0 <= i < h.len() implies #[trigger] h[i] < 0x80 by {
        assert(h[i] == b[i]);
    }
    lemma_latin1_ascii(h);
    assert(h.subrange(0, 7) =~= b.subrange(0, 7));
}

} // verus!
