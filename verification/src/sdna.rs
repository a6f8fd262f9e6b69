//! Listing the blocks of a Blender file and reading its structure
//! description, the `DNA1` block.
//!
//! Each block's code and length are listed; a camera (`CA`) is read for its
//! name, type and focal length; the `DNA1` block is read for its parts:
//! `SDNA`, then `NAME` with the names of the fields, `TYPE` with the names
//! of the types, `TLEN` with their lengths, and `STRC` with the structs.
//! Names and types are texts ended by a zero byte; the parts are padded with
//! zero bytes. Numbers are stored least significant byte first. A read must
//! find all the bytes it asks for, else reading stops; only the reads that
//! pass over bytes may come up short. Byte counts are taken modulo 2^32.
use vstd::prelude::*;
use crate::blend::{
    boundary, half, half_at, is_boundary, latin1_utf8, latin1_utf8_of, lemma_latin1_utf8_len, name_len_at,
    name_length, pointer_size_differs, switch_endian, word, word_at,
};
use crate::platform::{host_is_little, host_little_endian, pointer_size};

verus! {

broadcast use vstd::seq_lib::group_seq_properties;

/// Why reading stops.
#[derive(Clone, Copy, Debug, PartialEq, Eq, Structural)]
pub enum SdnaFault {
    /// A read found fewer bytes than it asked for.
    EndOfFile,
    /// Taken as Latin-1 text, a code cannot be cut after its first
    /// characters without cutting a character.
    CutInsideChar,
}

/// What reading the blocks reports, in order.
#[derive(Clone, Copy, Debug, PartialEq, Eq, Structural)]
pub enum SdnaEvent {
    /// A block: its code (the first four bytes of the UTF-8 form of its
    /// first characters) and the length of its body.
    Block { c0: u8, c1: u8, c2: u8, c3: u8, body_len: u32 },
    /// The code of a part of the structure description.
    Part { c0: u8, c1: u8, c2: u8, c3: u8 },
    /// How many names follow.
    NrNames { count: u32 },
    /// A name: `len` bytes at `start`.
    Name { start: usize, len: usize },
    /// How many types follow.
    NrTypes { count: u32 },
    /// A type: `len` bytes at `start`.
    Type { start: usize, len: usize },
    /// The first type length.
    Typelens { first: u16 },
    /// How many structs follow.
    NrStructs { count: u32 },
    /// How many bytes of the body are passed over.
    Skip { bytes: u32 },
    /// A camera: its name (`len` bytes at `start`), type and focal length
    /// (the bits of a float).
    Camera { start: usize, len: usize, cam_type: u8, lens: u32 },
    /// Reading stops.
    Fault { fault: SdnaFault },
}

/// The events read so far and where reading goes on, if it does.
pub open spec fn then(evs: Seq<SdnaEvent>, r: (Seq<SdnaEvent>, Option<int>)) -> (Seq<SdnaEvent>, Option<int>) {
    (evs + r.0, r.1)
}

/// A read that comes up short stops the reading.
pub open spec fn eof() -> (Seq<SdnaEvent>, Option<int>) {
    (seq![SdnaEvent::Fault { fault: SdnaFault::EndOfFile }], None)
}

/// A code cut inside a character stops the reading.
pub open spec fn cut() -> (Seq<SdnaEvent>, Option<int>) {
    (seq![SdnaEvent::Fault { fault: SdnaFault::CutInsideChar }], None)
}

/// The first zero byte at or after `pos`.
pub open spec fn zero_from(b: Seq<u8>, pos: int) -> Option<int>
    decreases b.len() - pos,
{
    if pos < 0 || pos >= b.len() {
        None
    } else if b[pos] == 0 {
        Some(pos)
    } else {
        zero_from(b, pos + 1)
    }
}

/// The first byte at or after `pos` that is not zero.
pub open spec fn nonzero_from(b: Seq<u8>, pos: int) -> Option<int>
    decreases b.len() - pos,
{
    if pos < 0 || pos >= b.len() {
        None
    } else if b[pos] != 0 {
        Some(pos)
    } else {
        nonzero_from(b, pos + 1)
    }
}

/// At least one text is read, `left` in all: each runs up to a zero byte.
pub open spec fn strings(b: Seq<u8>, pos: int, left: int, types: bool) -> (Seq<SdnaEvent>, Option<int>)
    decreases left,
{
    match zero_from(b, pos) {
        None => eof(),
        Some(z) => {
            let ev = if types {
                SdnaEvent::Type { start: pos as usize, len: (z - pos) as usize }
            } else {
                SdnaEvent::Name { start: pos as usize, len: (z - pos) as usize }
            };
            if left <= 1 {
                (seq![ev], Some(z + 1))
            } else {
                then(seq![ev], strings(b, z + 1, left - 1, types))
            }
        },
    }
}

/// At least one struct is read, `left` in all: two numbers of two bytes,
/// the second telling how many pairs of two-byte numbers follow (counted
/// modulo 2^16).
pub open spec fn structs(b: Seq<u8>, pos: int, left: int) -> Option<int>
    decreases left,
{
    if pos < 0 || b.len() - pos < 4 {
        None
    } else {
        let fields = (2 * half_at(b, pos + 2, true)) % 0x10000;
        let next = pos + 4 + 2 * fields;
        if next > b.len() {
            None
        } else if left <= 1 {
            Some(next)
        } else {
            structs(b, next, left - 1)
        }
    }
}

/// The count of a loop that runs at least once.
pub open spec fn at_least_once(n: u32) -> int {
    if n == 0 {
        1
    } else {
        n as int
    }
}

/// The code event for the UTF-8 bytes `u`.
pub open spec fn part_of(u: Seq<u8>) -> SdnaEvent {
    SdnaEvent::Part { c0: u[0], c1: u[1], c2: u[2], c3: u[3] }
}

/// The codes of the parts.
pub open spec fn code_sdna() -> Seq<u8> {
    seq![83u8, 68u8, 78u8, 65u8]
}

pub open spec fn code_name() -> Seq<u8> {
    seq![78u8, 65u8, 77u8, 69u8]
}

pub open spec fn code_type() -> Seq<u8> {
    seq![84u8, 89u8, 80u8, 69u8]
}

pub open spec fn code_tlen() -> Seq<u8> {
    seq![84u8, 76u8, 69u8, 78u8]
}

pub open spec fn code_strc() -> Seq<u8> {
    seq![83u8, 84u8, 82u8, 67u8]
}

/// The end of the `DNA1` block once its description was read up to `p`:
/// the rest of the body (its length less the bytes read, modulo 2^32) is
/// passed over, as far as the file goes.
pub open spec fn finish(b: Seq<u8>, body: int, len: int, p: int) -> (Seq<SdnaEvent>, Option<int>) {
    let n = (len + 0x1_0000_0000 - (p - body) % 0x1_0000_0000) % 0x1_0000_0000;
    let skip = if b.len() - p < n {
        b.len() - p
    } else {
        n
    };
    (seq![SdnaEvent::Skip { bytes: n as u32 }], Some(p + skip))
}

/// A part code made of the Latin-1 characters `raw`, checked against
/// `expected`: what follows is `then_go` when it matches, the end of the
/// block at `p` when it does not.
pub open spec fn part_then(
    raw: Seq<u8>,
    expected: Seq<u8>,
    then_go: (Seq<SdnaEvent>, Option<int>),
    b: Seq<u8>,
    body: int,
    len: int,
    p: int,
) -> (Seq<SdnaEvent>, Option<int>) {
    let u = latin1_utf8(raw);
    if !is_boundary(u, 4) {
        cut()
    } else if u.take(4) == expected {
        then(seq![part_of(u)], then_go)
    } else {
        then(seq![part_of(u)], finish(b, body, len, p))
    }
}

/// Reading the `STRC` part from its count at `p` on.
pub open spec fn strc_stage(b: Seq<u8>, p: int, body: int, len: int) -> (Seq<SdnaEvent>, Option<int>) {
    if b.len() - p < 4 {
        eof()
    } else {
        let n = word_at(b, p, true);
        match structs(b, p + 4, at_least_once(n)) {
            None => then(seq![SdnaEvent::NrStructs { count: n }], eof()),
            Some(q) => then(seq![SdnaEvent::NrStructs { count: n }], finish(b, body, len, q)),
        }
    }
}

/// Reading the code of a part: the character `first` and the three bytes
/// at `p`.
pub open spec fn coded_part(b: Seq<u8>, first: u8, p: int, expected: Seq<u8>, then_go: (Seq<SdnaEvent>, Option<int>), body: int, len: int) -> (Seq<SdnaEvent>, Option<int>) {
    if b.len() - p < 3 {
        eof()
    } else {
        part_then(seq![first] + b.subrange(p, p + 3), expected, then_go, b, body, len, p + 3)
    }
}

/// Reading the `TLEN` part from the first type length at `p` on: the rest
/// of the type lengths (`2 * nr_types` bytes, modulo 2^32) is passed over,
/// then a zero byte may pad, then comes the `STRC` part.
pub open spec fn lens_stage(b: Seq<u8>, p: int, nr_types: u32, body: int, len: int) -> (Seq<SdnaEvent>, Option<int>) {
    if b.len() - p < 2 {
        eof()
    } else {
        let lens = SdnaEvent::Typelens { first: half_at(b, p, true) };
        let k = (2 * nr_types) % 0x1_0000_0000;
        let p2 = p + 2 + k;
        if p2 >= b.len() {
            then(seq![lens], eof())
        } else if b[p2] != 0 {
            then(seq![lens], coded_part(b, b[p2], p2 + 1, code_strc(), strc_stage(b, p2 + 4, body, len), body, len))
        } else if p2 + 1 >= b.len() {
            then(seq![lens], eof())
        } else {
            then(
                seq![lens],
                coded_part(b, b[p2 + 1], p2 + 2, code_strc(), strc_stage(b, p2 + 5, body, len), body, len),
            )
        }
    }
}

/// Reading a part whose code starts with the first byte after the zero
/// bytes that pad from `q` on.
pub open spec fn padded_part(b: Seq<u8>, q: int, expected: Seq<u8>, then_at: spec_fn(int) -> (Seq<SdnaEvent>, Option<int>), body: int, len: int) -> (Seq<SdnaEvent>, Option<int>) {
    match nonzero_from(b, q) {
        None => eof(),
        Some(z) => coded_part(b, b[z], z + 1, expected, then_at(z + 4), body, len),
    }
}

/// Reading the `TYPE` part from its count at `p` on.
pub open spec fn types_stage(b: Seq<u8>, p: int, body: int, len: int) -> (Seq<SdnaEvent>, Option<int>) {
    if b.len() - p < 4 {
        eof()
    } else {
        let n = word_at(b, p, true);
        let (evs, end) = strings(b, p + 4, at_least_once(n), true);
        match end {
            None => (seq![SdnaEvent::NrTypes { count: n }] + evs, None),
            Some(q) => then(
                seq![SdnaEvent::NrTypes { count: n }] + evs,
                padded_part(b, q, code_tlen(), |at: int| lens_stage(b, at, n, body, len), body, len),
            ),
        }
    }
}

/// Reading the `NAME` part from its count at `p` on.
pub open spec fn names_stage(b: Seq<u8>, p: int, body: int, len: int) -> (Seq<SdnaEvent>, Option<int>) {
    if b.len() - p < 4 {
        eof()
    } else {
        let n = word_at(b, p, true);
        let (evs, end) = strings(b, p + 4, at_least_once(n), false);
        match end {
            None => (seq![SdnaEvent::NrNames { count: n }] + evs, None),
            Some(q) => then(
                seq![SdnaEvent::NrNames { count: n }] + evs,
                padded_part(b, q, code_type(), |at: int| types_stage(b, at, body, len), body, len),
            ),
        }
    }
}

/// Reading a part code of four bytes at `p`.
pub open spec fn plain_part(b: Seq<u8>, p: int, expected: Seq<u8>, then_go: (Seq<SdnaEvent>, Option<int>), body: int, len: int) -> (Seq<SdnaEvent>, Option<int>) {
    if b.len() - p < 4 {
        eof()
    } else {
        part_then(b.subrange(p, p + 4), expected, then_go, b, body, len, p + 4)
    }
}

/// Reading the body of the `DNA1` block at `body`, of length `len`.
pub open spec fn dna_body(b: Seq<u8>, body: int, len: int) -> (Seq<SdnaEvent>, Option<int>) {
    plain_part(
        b,
        body,
        code_sdna(),
        plain_part(b, body + 4, code_name(), names_stage(b, body + 8, body, len), body, len),
        body,
        len,
    )
}

/// The block code `DNA1`, and the text `ENDB`.
pub open spec fn code_dna1() -> Seq<u8> {
    seq![68u8, 78u8, 65u8, 49u8]
}

pub open spec fn code_endb() -> Seq<u8> {
    seq![69u8, 78u8, 68u8, 66u8]
}

/// A camera body at `body`: its name (the 66 bytes after four pointers, up
/// to the first zero byte), its type (at 128) and its focal length (at 144);
/// 148 bytes are read, then the rest of the body is passed over.
pub open spec fn camera_body(b: Seq<u8>, body: int, len: int) -> (Seq<SdnaEvent>, Option<int>) {
    if b.len() - body < 148 {
        eof()
    } else {
        let n = (len + 0x1_0000_0000 - 148) % 0x1_0000_0000;
        let p = body + 148;
        let skip = if b.len() - p < n {
            b.len() - p
        } else {
            n
        };
        (
            seq![
                SdnaEvent::Camera {
                    start: (body + 32) as usize,
                    len: name_length(b.subrange(body + 32, body + 98)) as usize,
                    cam_type: b[body + 128],
                    lens: word_at(b, body + 144, true),
                },
            ],
            Some(p + skip),
        )
    }
}

/// Listing the blocks from `pos` on, until `ENDB` (of length zero) or
/// until reading stops.
pub open spec fn sdna_blocks_from(b: Seq<u8>, pos: int) -> Seq<SdnaEvent>
    decreases b.len() - pos,
{
    if pos < 0 || pos > b.len() {
        Seq::empty()
    } else if b.len() - pos < 24 {
        eof().0
    } else {
        let u = latin1_utf8(b.subrange(pos, pos + 24));
        let len = word_at(b, pos + 4, true) as int;
        let body = pos + 24;
        if !is_boundary(u, 4) {
            cut().0
        } else {
            let block = SdnaEvent::Block { c0: u[0], c1: u[1], c2: u[2], c3: u[3], body_len: len as u32 };
            let r = if u.take(4) == code_endb() && len == 0 {
                (Seq::<SdnaEvent>::empty(), None::<int>)
            } else if u.take(4) == code_dna1() {
                dna_body(b, body, len)
            } else if !is_boundary(u, 2) {
                cut()
            } else if u[0] == 67 && u[1] == 65 {
                camera_body(b, body, len)
            } else {
                (Seq::<SdnaEvent>::empty(), Some(if b.len() - body < len { b.len() as int } else { body + len }))
            };
            match r.1 {
                Some(next) => if pos < next <= b.len() {
                    seq![block] + r.0 + sdna_blocks_from(b, next)
                } else {
                    seq![block] + r.0
                },
                None => seq![block] + r.0,
            }
        }
    }
}

/// What the 12-byte header says when the blocks are listed.
#[derive(Clone, Copy, Debug, PartialEq, Eq, Structural)]
pub enum SdnaHeader {
    /// The file holds fewer than twelve bytes.
    Short,
    /// Taken as Latin-1 text, the header cannot be cut as it is read.
    CutInsideChar,
    /// The header does not start with `BLENDER`.
    NotBlender,
    /// A Blender file: pointers take 4 bytes when its eighth byte is `_`;
    /// numbers are stored least significant byte first when the ninth is
    /// `v`; the version is the UTF-8 bytes 10 to 12 of the header, `n0`,
    /// `n1`, `n2`, which can be cut out when `version_ok`.
    Blender { pointers_4: bool, little_endian: bool, version_ok: bool, n0: u8, n1: u8, n2: u8 },
}

/// The characters `BLENDER`.
pub open spec fn blender_text() -> Seq<u8> {
    seq![66u8, 76u8, 69u8, 78u8, 68u8, 69u8, 82u8]
}

/// What the first twelve bytes of `b` say.
pub open spec fn sdna_header(b: Seq<u8>) -> SdnaHeader {
    if b.len() < 12 {
        SdnaHeader::Short
    } else {
        let u = latin1_utf8(b.subrange(0, 12));
        if !is_boundary(u, 7) {
            SdnaHeader::CutInsideChar
        } else if u.take(7) != blender_text() {
            SdnaHeader::NotBlender
        } else {
            SdnaHeader::Blender {
                pointers_4: b[7] == 95,
                little_endian: b[8] == 118,
                version_ok: is_boundary(u, 9) && is_boundary(u, 12),
                n0: u[9],
                n1: u[10],
                n2: u[11],
            }
        }
    }
}

/// No event is a fault.
pub open spec fn fault_free(evs: Seq<SdnaEvent>) -> bool {
    forall|i: int| 0 <= i < evs.len() ==> !(#[trigger] evs[i] is Fault)
}

/// A step's result: when reading goes on, it does so at a position between
/// `lo` and `hi`, and no event is a fault; when reading stops, its last event
/// is a fault, and the only one.
pub open spec fn ends_well(r: (Seq<SdnaEvent>, Option<int>), lo: int, hi: int) -> bool {
    match r.1 {
        Some(n) => lo <= n <= hi && fault_free(r.0),
        None => r.0.len() > 0 && r.0.last() is Fault && fault_free(r.0.drop_last()),
    }
}

proof fn lemma_then_ends_well(evs: Seq<SdnaEvent>, r: (Seq<SdnaEvent>, Option<int>), lo: int, hi: int)
    requires
        fault_free(evs),
        ends_well(r, lo, hi),
    ensures
        ends_well(then(evs, r), lo, hi),
{
    let t = then(evs, r);
    assert forall|i: int| 0 <= i < t.0.len() && (r.1 is Some || i < t.0.len() - 1) implies !(#[trigger] t.0[i] is Fault) by {
        if i < evs.len() {
            assert(t.0[i] == evs[i]);
        } else {
            assert(t.0[i] == r.0[i - evs.len()]);
            if r.1 is None {
                assert(r.0.drop_last()[i - evs.len()] == r.0[i - evs.len()]);
            }
        }
    }
    if r.1 is None {
        assert(t.0.last() == r.0.last());
        assert forall|i: int| 0 <= i < t.0.drop_last().len() implies !(#[trigger] t.0.drop_last()[i] is Fault) by {
            assert(t.0.drop_last()[i] == t.0[i]);
        }
    }
}

proof fn lemma_zero_from(b: Seq<u8>, pos: int)
    ensures
        zero_from(b, pos) matches Some(z) ==> pos <= z < b.len(),
    decreases b.len() - pos,
{
    if 0 <= pos < b.len() && b[pos] != 0 {
        lemma_zero_from(b, pos + 1);
    }
}

proof fn lemma_nonzero_from(b: Seq<u8>, pos: int)
    ensures
        nonzero_from(b, pos) matches Some(z) ==> pos <= z < b.len(),
    decreases b.len() - pos,
{
    if 0 <= pos < b.len() && b[pos] == 0 {
        lemma_nonzero_from(b, pos + 1);
    }
}

proof fn lemma_strings_end(b: Seq<u8>, pos: int, left: int, types: bool, lo: int)
    requires
        lo <= pos <= b.len(),
    ensures
        ends_well(strings(b, pos, left, types), lo, b.len() as int),
    decreases left,
{
    lemma_zero_from(b, pos);
    match zero_from(b, pos) {
        None => {},
        Some(z) => {
            let ev = if types {
                SdnaEvent::Type { start: pos as usize, len: (z - pos) as usize }
            } else {
                SdnaEvent::Name { start: pos as usize, len: (z - pos) as usize }
            };
            if left > 1 {
                lemma_strings_end(b, z + 1, left - 1, types, lo);
                lemma_then_ends_well(seq![ev], strings(b, z + 1, left - 1, types), lo, b.len() as int);
            }
        },
    }
}

proof fn lemma_structs_end(b: Seq<u8>, pos: int, left: int)
    ensures
        structs(b, pos, left) matches Some(n) ==> pos <= n <= b.len(),
    decreases left,
{
    if pos >= 0 && b.len() - pos >= 4 {
        let fields = (2 * half_at(b, pos + 2, true)) % 0x10000;
        let next = pos + 4 + 2 * fields;
        if next <= b.len() && left > 1 {
            lemma_structs_end(b, next, left - 1);
        }
    }
}

proof fn lemma_finish_end(b: Seq<u8>, body: int, len: int, p: int)
    requires
        body <= p <= b.len(),
    ensures
        ends_well(finish(b, body, len, p), body, b.len() as int),
{
}

proof fn lemma_part_then_end(
    raw: Seq<u8>,
    expected: Seq<u8>,
    then_go: (Seq<SdnaEvent>, Option<int>),
    b: Seq<u8>,
    body: int,
    len: int,
    p: int,
)
    requires
        body <= p <= b.len(),
        ends_well(then_go, body, b.len() as int),
    ensures
        ends_well(part_then(raw, expected, then_go, b, body, len, p), body, b.len() as int),
{
    let u = latin1_utf8(raw);
    if is_boundary(u, 4) {
        lemma_finish_end(b, body, len, p);
        lemma_then_ends_well(seq![part_of(u)], then_go, body, b.len() as int);
        lemma_then_ends_well(seq![part_of(u)], finish(b, body, len, p), body, b.len() as int);
    }
}

proof fn lemma_strc_end(b: Seq<u8>, p: int, body: int, len: int)
    requires
        body <= p <= b.len(),
    ensures
        ends_well(strc_stage(b, p, body, len), body, b.len() as int),
{
    if b.len() - p >= 4 {
        let n = word_at(b, p, true);
        lemma_structs_end(b, p + 4, at_least_once(n));
        match structs(b, p + 4, at_least_once(n)) {
            None => lemma_then_ends_well(seq![SdnaEvent::NrStructs { count: n }], eof(), body, b.len() as int),
            Some(q) => {
                lemma_finish_end(b, body, len, q);
                lemma_then_ends_well(
                    seq![SdnaEvent::NrStructs { count: n }],
                    finish(b, body, len, q),
                    body,
                    b.len() as int,
                );
            },
        }
    }
}

proof fn lemma_lens_end(b: Seq<u8>, p: int, nr_types: u32, body: int, len: int)
    requires
        body <= p <= b.len(),
    ensures
        ends_well(lens_stage(b, p, nr_types, body, len), body, b.len() as int),
{
    if b.len() - p >= 2 {
        let lens = SdnaEvent::Typelens { first: half_at(b, p, true) };
        let k = (2 * nr_types) % 0x1_0000_0000;
        let p2 = p + 2 + k;
        if p2 >= b.len() {
            lemma_then_ends_well(seq![lens], eof(), body, b.len() as int);
        } else {
            let (last, p3) = if b[p2] != 0 {
                (b[p2], p2 + 1)
            } else {
                (b[p2 + 1], p2 + 2)
            };
            if b[p2] == 0 && p2 + 1 >= b.len() {
                lemma_then_ends_well(seq![lens], eof(), body, b.len() as int);
            } else if b.len() - p3 < 3 {
                lemma_then_ends_well(seq![lens], eof(), body, b.len() as int);
            } else {
                lemma_strc_end(b, p3 + 3, body, len);
                lemma_part_then_end(
                    seq![last] + b.subrange(p3, p3 + 3),
                    code_strc(),
                    strc_stage(b, p3 + 3, body, len),
                    b,
                    body,
                    len,
                    p3 + 3,
                );
                lemma_then_ends_well(
                    seq![lens],
                    coded_part(b, last, p3, code_strc(), strc_stage(b, p3 + 3, body, len), body, len),
                    body,
                    b.len() as int,
                );
            }
        }
    }
}

proof fn lemma_types_end(b: Seq<u8>, p: int, body: int, len: int)
    requires
        body <= p <= b.len(),
    ensures
        ends_well(types_stage(b, p, body, len), body, b.len() as int),
{
    if b.len() - p >= 4 {
        let n = word_at(b, p, true);
        let head = seq![SdnaEvent::NrTypes { count: n }];
        lemma_strings_end(b, p + 4, at_least_once(n), true, body);
        let (evs, end) = strings(b, p + 4, at_least_once(n), true);
        lemma_then_ends_well(head, strings(b, p + 4, at_least_once(n), true), body, b.len() as int);
        assert(then(head, strings(b, p + 4, at_least_once(n), true)).0 == head + evs);
        if let Some(q) = end {
            lemma_nonzero_from(b, q);
            let tail = padded_part(b, q, code_tlen(), |at: int| lens_stage(b, at, n, body, len), body, len);
            if let Some(z) = nonzero_from(b, q) {
                if b.len() - (z + 1) >= 3 {
                    lemma_lens_end(b, z + 4, n, body, len);
                    lemma_part_then_end(
                        seq![b[z]] + b.subrange(z + 1, z + 4),
                        code_tlen(),
                        lens_stage(b, z + 4, n, body, len),
                        b,
                        body,
                        len,
                        z + 4,
                    );
                }
            }
            assert(ends_well(tail, body, b.len() as int));
            assert(fault_free(head + evs)) by {
                assert forall|i: int| 0 <= i < (head + evs).len() implies !(#[trigger] (head + evs)[i] is Fault) by {
                    if i > 0 {
                        assert((head + evs)[i] == evs[i - 1]);
                    }
                }
            }
            lemma_then_ends_well(head + evs, tail, body, b.len() as int);
        }
    }
}

proof fn lemma_names_end(b: Seq<u8>, p: int, body: int, len: int)
    requires
        body <= p <= b.len(),
    ensures
        ends_well(names_stage(b, p, body, len), body, b.len() as int),
{
    if b.len() - p >= 4 {
        let n = word_at(b, p, true);
        let head = seq![SdnaEvent::NrNames { count: n }];
        lemma_strings_end(b, p + 4, at_least_once(n), false, body);
        let (evs, end) = strings(b, p + 4, at_least_once(n), false);
        lemma_then_ends_well(head, strings(b, p + 4, at_least_once(n), false), body, b.len() as int);
        assert(then(head, strings(b, p + 4, at_least_once(n), false)).0 == head + evs);
        if let Some(q) = end {
            lemma_nonzero_from(b, q);
            let tail = padded_part(b, q, code_type(), |at: int| types_stage(b, at, body, len), body, len);
            if let Some(z) = nonzero_from(b, q) {
                if b.len() - (z + 1) >= 3 {
                    lemma_types_end(b, z + 4, body, len);
                    lemma_part_then_end(
                        seq![b[z]] + b.subrange(z + 1, z + 4),
                        code_type(),
                        types_stage(b, z + 4, body, len),
                        b,
                        body,
                        len,
                        z + 4,
                    );
                }
            }
            assert(ends_well(tail, body, b.len() as int));
            assert(fault_free(head + evs)) by {
                assert forall|i: int| 0 <= i < (head + evs).len() implies !(#[trigger] (head + evs)[i] is Fault) by {
                    if i > 0 {
                        assert((head + evs)[i] == evs[i - 1]);
                    }
                }
            }
            lemma_then_ends_well(head + evs, tail, body, b.len() as int);
        }
    }
}

proof fn lemma_dna_end(b: Seq<u8>, body: int, len: int)
    requires
        0 <= body <= b.len(),
    ensures
        ends_well(dna_body(b, body, len), body, b.len() as int),
{
    if b.len() - body >= 4 {
        if b.len() - (body + 4) >= 4 {
            lemma_names_end(b, body + 8, body, len);
            lemma_part_then_end(
                b.subrange(body + 4, body + 8),
                code_name(),
                names_stage(b, body + 8, body, len),
                b,
                body,
                len,
                body + 8,
            );
        }
        lemma_part_then_end(
            b.subrange(body, body + 4),
            code_sdna(),
            plain_part(b, body + 4, code_name(), names_stage(b, body + 8, body, len), body, len),
            b,
            body,
            len,
            body + 4,
        );
    }
}

/// The listing of the blocks stops at its first fault, which is then its
/// last event; a listing without a fault ends with a block (the end block).
pub proof fn lemma_listing_ends(b: Seq<u8>, pos: int)
    requires
        0 <= pos <= b.len(),
    ensures
        sdna_blocks_from(b, pos).len() > 0,
        sdna_blocks_from(b, pos).last() is Fault || sdna_blocks_from(b, pos).last() is Block,
        fault_free(sdna_blocks_from(b, pos).drop_last()),
    decreases b.len() - pos,
{
    let evs = sdna_blocks_from(b, pos);
    if b.len() - pos >= 24 {
        let u = latin1_utf8(b.subrange(pos, pos + 24));
        let len = word_at(b, pos + 4, true) as int;
        let body = pos + 24;
        if is_boundary(u, 4) {
            let block = SdnaEvent::Block { c0: u[0], c1: u[1], c2: u[2], c3: u[3], body_len: len as u32 };
            let r = if u.take(4) == code_endb() && len == 0 {
                (Seq::<SdnaEvent>::empty(), None::<int>)
            } else if u.take(4) == code_dna1() {
                dna_body(b, body, len)
            } else if !is_boundary(u, 2) {
                cut()
            } else if u[0] == 67 && u[1] == 65 {
                camera_body(b, body, len)
            } else {
                (Seq::<SdnaEvent>::empty(), Some(if b.len() - body < len { b.len() as int } else { body + len }))
            };
            if u.take(4) == code_endb() && len == 0 {
                assert(evs =~= seq![block]);
            } else {
                if u.take(4) == code_dna1() {
                    lemma_dna_end(b, body, len);
                }
                assert(ends_well(r, body, b.len() as int));
                lemma_then_ends_well(seq![block], r, body, b.len() as int);
                let t = then(seq![block], r);
                match r.1 {
                    Some(next) => {
                        lemma_listing_ends(b, next);
                        let rest = sdna_blocks_from(b, next);
                        assert(evs == t.0 + rest);
                        assert(evs.last() == rest.last());
                        assert forall|i: int| 0 <= i < evs.drop_last().len() implies !(#[trigger] evs.drop_last()[i] is Fault) by {
                            assert(evs.drop_last()[i] == evs[i]);
                            if i < t.0.len() {
                                assert(evs[i] == t.0[i]);
                            } else {
                                assert(evs[i] == rest[i - t.0.len()]);
                                assert(rest.drop_last()[i - t.0.len()] == rest[i - t.0.len()]);
                            }
                        }
                    },
                    None => {
                        assert(evs == t.0);
                    },
                }
            }
        }
    }
}

/// The result `r` of a reading step is the step's spec `s`.
pub open spec fn agrees(r: (Vec<SdnaEvent>, Option<usize>), s: (Seq<SdnaEvent>, Option<int>)) -> bool {
    &&& r.0@ == s.0
    &&& match r.1 {
        Some(x) => s.1 == Some(x as int),
        None => s.1 is None,
    }
}

fn eof_res() -> (r: (Vec<SdnaEvent>, Option<usize>))
    ensures
        agrees(r, eof()),
{
    let v = vec![SdnaEvent::Fault { fault: SdnaFault::EndOfFile }];
    assert(v@ =~= eof().0);
    (v, None)
}

fn cut_res() -> (r: (Vec<SdnaEvent>, Option<usize>))
    ensures
        agrees(r, cut()),
{
    let v = vec![SdnaEvent::Fault { fault: SdnaFault::CutInsideChar }];
    assert(v@ =~= cut().0);
    (v, None)
}

/// The events `first` followed by the result `r`.
fn prepend(first: Vec<SdnaEvent>, r: (Vec<SdnaEvent>, Option<usize>)) -> (out: (Vec<SdnaEvent>, Option<usize>))
    ensures
        forall|s: (Seq<SdnaEvent>, Option<int>)| agrees(r, s) ==> agrees(out, #[trigger] then(first@, s)),
{
    let (mut rest, next) = r;
    let ghost taken = rest@;
    let mut events = first;
    let ghost before = events@;
    events.append(&mut rest);
    assert(events@ =~= before + taken);
    (events, next)
}

/// The first zero byte at or after `pos` (see `zero_from`).
fn find_zero(b: &Vec<u8>, pos: usize) -> (z: Option<usize>)
    requires
        pos <= b.len(),
    ensures
        match z {
            Some(x) => zero_from(b@, pos as int) == Some(x as int) && pos <= x < b.len(),
            None => zero_from(b@, pos as int) is None,
        },
{
    let mut i = pos;
    while i < b.len() && b[i] != 0
        invariant
            pos <= i <= b.len(),
            zero_from(b@, pos as int) == zero_from(b@, i as int),
        decreases b.len() - i,
    {
        i = i + 1;
    }
    if i < b.len() {
        Some(i)
    } else {
        None
    }
}

/// The first nonzero byte at or after `pos` (see `nonzero_from`).
fn find_nonzero(b: &Vec<u8>, pos: usize) -> (z: Option<usize>)
    requires
        pos <= b.len(),
    ensures
        match z {
            Some(x) => nonzero_from(b@, pos as int) == Some(x as int) && pos <= x < b.len(),
            None => nonzero_from(b@, pos as int) is None,
        },
{
    let mut i = pos;
    while i < b.len() && b[i] == 0
        invariant
            pos <= i <= b.len(),
            nonzero_from(b@, pos as int) == nonzero_from(b@, i as int),
        decreases b.len() - i,
    {
        i = i + 1;
    }
    if i < b.len() {
        Some(i)
    } else {
        None
    }
}

/// Reads the texts (see `strings`).
fn read_strings(b: &Vec<u8>, pos: usize, count: u32, types: bool) -> (r: (Vec<SdnaEvent>, Option<usize>))
    requires
        pos <= b.len(),
    ensures
        agrees(r, strings(b@, pos as int, at_least_once(count), types)),
        r.1 is Some ==> pos <= r.1->0 <= b.len(),
{
    let mut events: Vec<SdnaEvent> = Vec::new();
    let mut p = pos;
    let mut left: u32 = if count == 0 {
        1
    } else {
        count
    };
    loop
        invariant
            pos <= p <= b.len(),
            left >= 1,
            strings(b@, pos as int, at_least_once(count), types) == then(
                events@,
                strings(b@, p as int, left as int, types),
            ),
        decreases left,
    {
        match find_zero(b, p) {
            None => {
                let ghost before = events@;
                events.push(SdnaEvent::Fault { fault: SdnaFault::EndOfFile });
                assert(events@ =~= before + eof().0);
                return (events, None);
            },
            Some(z) => {
                let ev = if types {
                    SdnaEvent::Type { start: p, len: z - p }
                } else {
                    SdnaEvent::Name { start: p, len: z - p }
                };
                let ghost before = events@;
                events.push(ev);
                if left <= 1 {
                    assert(events@ =~= before + seq![ev]);
                    return (events, Some(z + 1));
                }
                proof {
                    assert(before + (seq![ev] + strings(b@, z + 1, left - 1, types).0) =~= events@ + strings(
                        b@,
                        z + 1,
                        left - 1,
                        types,
                    ).0);
                }
                left = left - 1;
                p = z + 1;
            },
        }
    }
}

/// Reads the structs (see `structs`).
fn read_structs(b: &Vec<u8>, pos: usize, count: u32) -> (r: Option<usize>)
    requires
        pos <= b.len(),
    ensures
        match r {
            Some(x) => structs(b@, pos as int, at_least_once(count)) == Some(x as int) && pos <= x <= b.len(),
            None => structs(b@, pos as int, at_least_once(count)) is None,
        },
{
    let mut p = pos;
    let mut left: u32 = if count == 0 {
        1
    } else {
        count
    };
    loop
        invariant
            pos <= p <= b.len(),
            left >= 1,
            structs(b@, pos as int, at_least_once(count)) == structs(b@, p as int, left as int),
        decreases left,
    {
        if b.len() - p < 4 {
            return None;
        }
        let fields = (2 * (half(b, p + 2, true) as usize)) % 0x10000;
        if b.len() - (p + 4) < 2 * fields {
            return None;
        }
        let next = p + 4 + 2 * fields;
        if left <= 1 {
            return Some(next);
        }
        left = left - 1;
        p = next;
    }
}

/// The end of the `DNA1` block (see `finish`).
fn finish_at(b: &Vec<u8>, body: usize, len: u32, p: usize) -> (r: (Vec<SdnaEvent>, Option<usize>))
    requires
        body <= p <= b.len(),
    ensures
        agrees(r, finish(b@, body as int, len as int, p as int)),
{
    let counted = ((p - body) as u64) % 0x1_0000_0000;
    let n = ((len as u64 + 0x1_0000_0000 - counted) % 0x1_0000_0000) as u32;
    let skip = if ((b.len() - p) as u64) < n as u64 {
        b.len() - p
    } else {
        n as usize
    };
    let v = vec![SdnaEvent::Skip { bytes: n }];
    assert(v@ =~= finish(b@, body as int, len as int, p as int).0);
    (v, Some(p + skip))
}

/// The part code made of the Latin-1 characters `raw`: `None` when it
/// cannot be cut after four bytes; else its event and whether it is
/// `expected`.
fn check_part(raw: &Vec<u8>, expected: [u8; 4]) -> (r: Option<(SdnaEvent, bool)>)
    requires
        raw.len() == 4,
    ensures
        r is None <==> !is_boundary(latin1_utf8(raw@), 4),
        match r {
            Some(found) => found.0 == part_of(latin1_utf8(raw@)) && found.1 == (latin1_utf8(raw@).take(4) == expected@),
            None => true,
        },
{
    let u = latin1_utf8_of(raw, 0, 4);
    assert(raw@.subrange(0, 4) =~= raw@);
    proof {
        lemma_latin1_utf8_len(raw@);
    }
    if !boundary(&u, 4) {
        return None;
    }
    let same = u[0] == expected[0] && u[1] == expected[1] && u[2] == expected[2] && u[3] == expected[3];
    assert(same == (u@.take(4) == expected@)) by {
        if same {
            assert(u@.take(4) =~= expected@);
        }
        if u@.take(4) == expected@ {
            assert(u@.take(4)[0] == expected@[0]);
            assert(u@.take(4)[1] == expected@[1]);
            assert(u@.take(4)[2] == expected@[2]);
            assert(u@.take(4)[3] == expected@[3]);
        }
    }
    Some((SdnaEvent::Part { c0: u[0], c1: u[1], c2: u[2], c3: u[3] }, same))
}

/// The four bytes `first`, `b[p]`, `b[p + 1]`, `b[p + 2]`.
fn code_bytes(first: u8, b: &Vec<u8>, p: usize) -> (raw: Vec<u8>)
    requires
        p + 3 <= b.len(),
    ensures
        raw@ == seq![first] + b@.subrange(p as int, p + 3),
{
    let raw = vec![first, b[p], b[p + 1], b[p + 2]];
    assert(raw@ =~= seq![first] + b@.subrange(p as int, p + 3));
    raw
}

/// Reads the `STRC` part from its count at `p` on (see `strc_stage`).
fn read_strc(b: &Vec<u8>, p: usize, body: usize, len: u32) -> (r: (Vec<SdnaEvent>, Option<usize>))
    requires
        body <= p <= b.len(),
    ensures
        agrees(r, strc_stage(b@, p as int, body as int, len as int)),
{
    if b.len() - p < 4 {
        return eof_res();
    }
    let n = word(b, p, true);
    let first = vec![SdnaEvent::NrStructs { count: n }];
    assert(first@ =~= seq![SdnaEvent::NrStructs { count: n }]);
    match read_structs(b, p + 4, n) {
        None => prepend(first, eof_res()),
        Some(q) => prepend(first, finish_at(b, body, len, q)),
    }
}

/// Reads the `TLEN` part from its first type length at `p` on (see
/// `lens_stage`).
fn read_lens(b: &Vec<u8>, p: usize, nr_types: u32, body: usize, len: u32) -> (r: (
    Vec<SdnaEvent>,
    Option<usize>,
))
    requires
        body <= p <= b.len(),
    ensures
        agrees(r, lens_stage(b@, p as int, nr_types, body as int, len as int)),
{
    if b.len() - p < 2 {
        return eof_res();
    }
    let lens = vec![SdnaEvent::Typelens { first: half(b, p, true) }];
    assert(lens@ =~= seq![SdnaEvent::Typelens { first: half_at(b@, p as int, true) }]);
    let k = ((2 * (nr_types as u64)) % 0x1_0000_0000) as usize;
    if b.len() - (p + 2) <= k {
        return prepend(lens, eof_res());
    }
    let p2 = p + 2 + k;
    let (last, p3) = if b[p2] != 0 {
        (b[p2], p2 + 1)
    } else if p2 + 1 >= b.len() {
        return prepend(lens, eof_res());
    } else {
        (b[p2 + 1], p2 + 2)
    };
    if b.len() - p3 < 3 {
        return prepend(lens, eof_res());
    }
    let raw = code_bytes(last, b, p3);
    match check_part(&raw, [83, 84, 82, 67]) {
        None => prepend(lens, cut_res()),
        Some((ev, same)) => {
            assert([83u8, 84u8, 82u8, 67u8]@ =~= code_strc());
            let part = vec![ev];
            assert(part@ =~= seq![ev]);
            let next = if same {
                read_strc(b, p3 + 3, body, len)
            } else {
                finish_at(b, body, len, p3 + 3)
            };
            prepend(lens, prepend(part, next))
        },
    }
}

/// Reads the `TLEN` code after the zero bytes that pad from `q` on, then
/// the type lengths.
fn read_tlen_code(b: &Vec<u8>, q: usize, nr_types: u32, body: usize, len: u32) -> (r: (
    Vec<SdnaEvent>,
    Option<usize>,
))
    requires
        body <= q <= b.len(),
    ensures
        agrees(
            r,
            padded_part(
                b@,
                q as int,
                code_tlen(),
                |at: int| lens_stage(b@, at, nr_types, body as int, len as int),
                body as int,
                len as int,
            ),
        ),
{
    match find_nonzero(b, q) {
        None => eof_res(),
        Some(z) => {
            if b.len() - (z + 1) < 3 {
                return eof_res();
            }
            let raw = code_bytes(b[z], b, z + 1);
            match check_part(&raw, [84, 76, 69, 78]) {
                None => cut_res(),
                Some((ev, same)) => {
                    assert([84u8, 76u8, 69u8, 78u8]@ =~= code_tlen());
                    let part = vec![ev];
                    assert(part@ =~= seq![ev]);
                    let next = if same {
                        read_lens(b, z + 4, nr_types, body, len)
                    } else {
                        finish_at(b, body, len, z + 4)
                    };
                    prepend(part, next)
                },
            }
        },
    }
}

/// Reads the `TYPE` part from its count at `p` on (see `types_stage`).
fn read_types(b: &Vec<u8>, p: usize, body: usize, len: u32) -> (r: (Vec<SdnaEvent>, Option<usize>))
    requires
        body <= p <= b.len(),
    ensures
        agrees(r, types_stage(b@, p as int, body as int, len as int)),
{
    if b.len() - p < 4 {
        return eof_res();
    }
    let n = word(b, p, true);
    let (list, end) = read_strings(b, p + 4, n, true);
    let ghost listed = list@;
    let mut first = vec![SdnaEvent::NrTypes { count: n }];
    let mut list = list;
    first.append(&mut list);
    assert(first@ =~= seq![SdnaEvent::NrTypes { count: n }] + listed);
    match end {
        None => (first, None),
        Some(q) => prepend(first, read_tlen_code(b, q, n, body, len)),
    }
}

/// Reads the `TYPE` code after the zero bytes that pad from `q` on, then
/// the types.
fn read_type_code(b: &Vec<u8>, q: usize, body: usize, len: u32) -> (r: (Vec<SdnaEvent>, Option<usize>))
    requires
        body <= q <= b.len(),
    ensures
        agrees(
            r,
            padded_part(
                b@,
                q as int,
                code_type(),
                |at: int| types_stage(b@, at, body as int, len as int),
                body as int,
                len as int,
            ),
        ),
{
    match find_nonzero(b, q) {
        None => eof_res(),
        Some(z) => {
            if b.len() - (z + 1) < 3 {
                return eof_res();
            }
            let raw = code_bytes(b[z], b, z + 1);
            match check_part(&raw, [84, 89, 80, 69]) {
                None => cut_res(),
                Some((ev, same)) => {
                    assert([84u8, 89u8, 80u8, 69u8]@ =~= code_type());
                    let part = vec![ev];
                    assert(part@ =~= seq![ev]);
                    let next = if same {
                        read_types(b, z + 4, body, len)
                    } else {
                        finish_at(b, body, len, z + 4)
                    };
                    prepend(part, next)
                },
            }
        },
    }
}

/// Reads the `NAME` part from its count at `p` on (see `names_stage`).
fn read_names(b: &Vec<u8>, p: usize, body: usize, len: u32) -> (r: (Vec<SdnaEvent>, Option<usize>))
    requires
        body <= p <= b.len(),
    ensures
        agrees(r, names_stage(b@, p as int, body as int, len as int)),
{
    if b.len() - p < 4 {
        return eof_res();
    }
    let n = word(b, p, true);
    let (list, end) = read_strings(b, p + 4, n, false);
    let ghost listed = list@;
    let mut first = vec![SdnaEvent::NrNames { count: n }];
    let mut list = list;
    first.append(&mut list);
    assert(first@ =~= seq![SdnaEvent::NrNames { count: n }] + listed);
    match end {
        None => (first, None),
        Some(q) => prepend(first, read_type_code(b, q, body, len)),
    }
}

/// Reads the `NAME` code at `body + 4`, then the names.
fn read_name_code(b: &Vec<u8>, body: usize, len: u32) -> (r: (Vec<SdnaEvent>, Option<usize>))
    requires
        body + 4 <= b.len(),
    ensures
        agrees(
            r,
            plain_part(
                b@,
                body + 4,
                code_name(),
                names_stage(b@, body + 8, body as int, len as int),
                body as int,
                len as int,
            ),
        ),
{
    let p = body + 4;
    if b.len() - p < 4 {
        return eof_res();
    }
    let raw = vec![b[p], b[p + 1], b[p + 2], b[p + 3]];
    assert(raw@ =~= b@.subrange(p as int, p + 4));
    assert([78u8, 65u8, 77u8, 69u8]@ =~= code_name());
    match check_part(&raw, [78, 65, 77, 69]) {
        None => cut_res(),
        Some((ev, same)) => {
            let part = vec![ev];
            assert(part@ =~= seq![ev]);
            let next = if same {
                read_names(b, body + 8, body, len)
            } else {
                finish_at(b, body, len, p + 4)
            };
            prepend(part, next)
        },
    }
}

/// Reads the body of the `DNA1` block at `body`, of length `len` (see
/// `dna_body`).
fn read_dna_body(b: &Vec<u8>, body: usize, len: u32) -> (r: (Vec<SdnaEvent>, Option<usize>))
    requires
        body <= b.len(),
    ensures
        agrees(r, dna_body(b@, body as int, len as int)),
{
    if b.len() - body < 4 {
        return eof_res();
    }
    let raw = vec![b[body], b[body + 1], b[body + 2], b[body + 3]];
    assert(raw@ =~= b@.subrange(body as int, body + 4));
    assert([83u8, 68u8, 78u8, 65u8]@ =~= code_sdna());
    match check_part(&raw, [83, 68, 78, 65]) {
        None => cut_res(),
        Some((ev, same)) => {
            let part = vec![ev];
            assert(part@ =~= seq![ev]);
            let next = if same {
                read_name_code(b, body, len)
            } else {
                finish_at(b, body, len, body + 4)
            };
            prepend(part, next)
        },
    }
}

/// Reads a camera body (see `camera_body`).
fn read_camera(b: &Vec<u8>, body: usize, len: u32) -> (r: (Vec<SdnaEvent>, Option<usize>))
    requires
        body <= b.len(),
    ensures
        agrees(r, camera_body(b@, body as int, len as int)),
{
    if b.len() - body < 148 {
        return eof_res();
    }
    let n = ((len as u64 + 0x1_0000_0000 - 148) % 0x1_0000_0000) as usize;
    let p = body + 148;
    let skip = if b.len() - p < n {
        b.len() - p
    } else {
        n
    };
    let ev = SdnaEvent::Camera {
        start: body + 32,
        len: name_len_at(b, body + 32, 66),
        cam_type: b[body + 128],
        lens: word(b, body + 144, true),
    };
    let v = vec![ev];
    assert(v@ =~= camera_body(b@, body as int, len as int).0);
    (v, Some(p + skip))
}

/// Reads the block at `pos`: its events, and where the next block starts
/// when the listing goes on.
fn list_block(b: &Vec<u8>, pos: usize) -> (r: (Vec<SdnaEvent>, Option<usize>))
    requires
        pos <= b.len(),
    ensures
        match r.1 {
            Some(next) => pos < next <= b.len() && sdna_blocks_from(b@, pos as int) == r.0@ + sdna_blocks_from(
                b@,
                next as int,
            ),
            None => sdna_blocks_from(b@, pos as int) == r.0@,
        },
{
    if b.len() - pos < 24 {
        let (v, _) = eof_res();
        return (v, None);
    }
    let u = latin1_utf8_of(b, pos, pos + 24);
    assert(u@.len() >= 24) by {
        lemma_latin1_utf8_len(b@.subrange(pos as int, pos + 24));
    }
    let len = word(b, pos + 4, true);
    let body = pos + 24;
    if !boundary(&u, 4) {
        let (v, _) = cut_res();
        return (v, None);
    }
    let block = SdnaEvent::Block { c0: u[0], c1: u[1], c2: u[2], c3: u[3], body_len: len };
    let is_endb = u[0] == 69 && u[1] == 78 && u[2] == 68 && u[3] == 66;
    let is_dna1 = u[0] == 68 && u[1] == 78 && u[2] == 65 && u[3] == 49;
    assert(is_endb == (u@.take(4) == code_endb())) by {
        if is_endb {
            assert(u@.take(4) =~= code_endb());
        }
        if u@.take(4) == code_endb() {
            assert(u@.take(4)[0] == 69 && u@.take(4)[1] == 78 && u@.take(4)[2] == 68 && u@.take(4)[3] == 66);
        }
    }
    assert(is_dna1 == (u@.take(4) == code_dna1())) by {
        if is_dna1 {
            assert(u@.take(4) =~= code_dna1());
        }
        if u@.take(4) == code_dna1() {
            assert(u@.take(4)[0] == 68 && u@.take(4)[1] == 78 && u@.take(4)[2] == 65 && u@.take(4)[3] == 49);
        }
    }
    let head = vec![block];
    assert(head@ =~= seq![block]);
    let r = if is_endb && len == 0 {
        (Vec::new(), None)
    } else if is_dna1 {
        read_dna_body(b, body, len)
    } else if !boundary(&u, 2) {
        cut_res()
    } else if u[0] == 67 && u[1] == 65 {
        read_camera(b, body, len)
    } else {
        let next = if b.len() - body < len as usize {
            b.len()
        } else {
            body + len as usize
        };
        (Vec::new(), Some(next))
    };
    let ghost rs = r.0@;
    let (mut evs, next) = r;
    let mut events = head;
    events.append(&mut evs);
    assert(events@ =~= seq![block] + rs);
    match next {
        Some(n) => {
            if pos < n && n <= b.len() {
                (events, Some(n))
            } else {
                (events, None)
            }
        },
        None => (events, None),
    }
}

/// Lists the blocks from `start` on (see `sdna_blocks_from`), up to and
/// including a fault where one is met.
fn scan_listing(b: &Vec<u8>, start: usize) -> (events: Vec<SdnaEvent>)
    requires
        start <= b.len(),
    ensures
        events@ == sdna_blocks_from(b@, start as int),
{
    let mut events: Vec<SdnaEvent> = Vec::new();
    let mut pos = start;
    loop
        invariant
            pos <= b.len(),
            sdna_blocks_from(b@, start as int) == events@ + sdna_blocks_from(b@, pos as int),
        decreases b.len() - pos,
    {
        let (mut evs, next) = list_block(b, pos);
        let ghost before = events@;
        let ghost taken = evs@;
        events.append(&mut evs);
        assert(events@ =~= before + taken);
        match next {
            Some(n) => {
                assert(before + (taken + sdna_blocks_from(b@, n as int)) =~= events@ + sdna_blocks_from(b@, n as int));
                pos = n;
            },
            None => {
                return events;
            },
        }
    }
}

/// Lists the blocks from `start` on (see `sdna_blocks_from`). The listing
/// must meet no fault: every read finds the bytes it asks for and no code
/// is cut inside a character.
pub fn list_blocks(b: &Vec<u8>, start: usize) -> (events: Vec<SdnaEvent>)
    requires
        start <= b.len(),
        fault_free(sdna_blocks_from(b@, start as int)),
    ensures
        events@ == sdna_blocks_from(b@, start as int),
{
    scan_listing(b, start)
}

/// Whether the listing of the blocks from `start` on meets no fault.
pub fn lists_through(b: &Vec<u8>, start: usize) -> (ok: bool)
    requires
        start <= b.len(),
    ensures
        ok == fault_free(sdna_blocks_from(b@, start as int)),
{
    let events = scan_listing(b, start);
    proof {
        lemma_listing_ends(b@, start as int);
    }
    let last = events[events.len() - 1];
    let ok = match last {
        SdnaEvent::Fault { .. } => false,
        _ => true,
    };
    proof {
        let evs = sdna_blocks_from(b@, start as int);
        if ok {
            assert forall|i: int| 0 <= i < evs.len() implies !(#[trigger] evs[i] is Fault) by {
                if i < evs.len() - 1 {
                    assert(evs.drop_last()[i] == evs[i]);
                }
            }
        } else {
            assert(evs[evs.len() - 1] is Fault);
        }
    }
    ok
}

/// Whether a file held in `b` can be listed: it holds a whole header that
/// is not cut inside a character, and, for a Blender file, the version is
/// text and the listing of its blocks meets no fault.
pub open spec fn sdna_file_listable(b: Seq<u8>) -> bool {
    match sdna_header(b) {
        SdnaHeader::Short => false,
        SdnaHeader::CutInsideChar => false,
        SdnaHeader::NotBlender => true,
        SdnaHeader::Blender { version_ok, .. } => version_ok && fault_free(sdna_blocks_from(b, 12)),
    }
}

/// Whether the file can be listed (see `sdna_file_listable`).
pub fn can_list_blend_file(b: &Vec<u8>) -> (ok: bool)
    ensures
        ok == sdna_file_listable(b@),
{
    match check_sdna_header(b) {
        SdnaHeader::Short => false,
        SdnaHeader::CutInsideChar => false,
        SdnaHeader::NotBlender => true,
        SdnaHeader::Blender { version_ok, .. } => version_ok && lists_through(b, 12),
    }
}

/// Reads the header of a file for the listing (see `sdna_header`).
pub fn check_sdna_header(b: &Vec<u8>) -> (h: SdnaHeader)
    ensures
        h == sdna_header(b@),
{
    if b.len() < 12 {
        return SdnaHeader::Short;
    }
    let u = latin1_utf8_of(b, 0, 12);
    assert(u@.len() >= 12) by {
        lemma_latin1_utf8_len(b@.subrange(0, 12));
    }
    if !boundary(&u, 7) {
        return SdnaHeader::CutInsideChar;
    }
    let is_blender = u[0] == 66 && u[1] == 76 && u[2] == 69 && u[3] == 78 && u[4] == 68 && u[5] == 69 && u[6]
        == 82;
    assert(is_blender == (u@.take(7) == blender_text())) by {
        if is_blender {
            assert(u@.take(7) =~= blender_text());
        }
        if u@.take(7) == blender_text() {
            assert(u@.take(7)[0] == 66 && u@.take(7)[1] == 76 && u@.take(7)[2] == 69 && u@.take(7)[3] == 78);
            assert(u@.take(7)[4] == 68 && u@.take(7)[5] == 69 && u@.take(7)[6] == 82);
        }
    }
    if !is_blender {
        return SdnaHeader::NotBlender;
    }
    SdnaHeader::Blender {
        pointers_4: b[7] == 95,
        little_endian: b[8] == 118,
        version_ok: boundary(&u, 9) && boundary(&u, 12),
        n0: u[9],
        n1: u[10],
        n2: u[11],
    }
}

/// What listing a file found: the header, the machine's pointer size and
/// byte order, and, for a Blender file whose version can be cut out, the
/// blocks.
pub struct SdnaReport {
    pub header: SdnaHeader,
    pub pointer_size: usize,
    pub host_little: bool,
    pub pointer_size_differs: bool,
    pub switch_endian: bool,
    pub blocks: Option<Vec<SdnaEvent>>,
}

/// Lists the blocks of a Blender file held in `b`, after its header.
pub fn list_blend_file(b: &Vec<u8>) -> (r: SdnaReport)
    requires
        sdna_file_listable(b@),
    ensures
        r.header == sdna_header(b@),
        r.host_little == host_is_little(),
        r.pointer_size == 4 || r.pointer_size == 8,
        r.pointer_size as nat == vstd::layout::size_of::<usize>(),
        match r.header {
            SdnaHeader::Blender { pointers_4, little_endian, version_ok, .. } => {
                &&& r.pointer_size_differs == if pointers_4 {
                    r.pointer_size != 4
                } else {
                    r.pointer_size != 8
                }
                &&& r.switch_endian == (little_endian != r.host_little)
                &&& match r.blocks {
                    Some(events) => version_ok && events@ == sdna_blocks_from(b@, 12),
                    None => !version_ok,
                }
            },
            _ => r.blocks is None,
        },
{
    let header = check_sdna_header(b);
    let ptr_size = pointer_size();
    let host_little = host_little_endian();
    match header {
        SdnaHeader::Blender { pointers_4, little_endian, version_ok, .. } => {
            let differs = pointer_size_differs(pointers_4, ptr_size);
            let switch = switch_endian(little_endian, host_little);
            let blocks = if version_ok {
                Some(list_blocks(b, 12))
            } else {
                None
            };
            SdnaReport {
                header,
                pointer_size: ptr_size,
                host_little,
                pointer_size_differs: differs,
                switch_endian: switch,
                blocks,
            }
        },
        _ => SdnaReport {
            header,
            pointer_size: ptr_size,
            host_little,
            pointer_size_differs: false,
            switch_endian: false,
            blocks: None,
        },
    }
}

/// A header of twelve bytes below 0x80 is that of a Blender file exactly
/// when it starts with `BLENDER`; then pointers take 4 bytes when its
/// eighth byte is `_`, numbers are stored least significant byte first
/// when its ninth byte is `v`, and the version is its last three bytes.
pub proof fn lemma_ascii_sdna_header(b: Seq<u8>)
    requires
        b.len() >= 12,
        forall|i: int| 0 <= i < 12 ==> #[trigger] b[i] < 0x80,
    ensures
        (sdna_header(b) is Blender) == (b.take(7) == blender_text()),
        sdna_header(b) is Blender ==> sdna_header(b) == (SdnaHeader::Blender {
            pointers_4: b[7] == 95,
            little_endian: b[8] == 118,
            version_ok: true,
            n0: b[9],
            n1: b[10],
            n2: b[11],
        }),
        !(sdna_header(b) is Blender) ==> sdna_header(b) == SdnaHeader::NotBlender,
{
    let h = b.subrange(0, 12);
    assert forall|i: int| 0 <= i < h.len() implies #[trigger] h[i] < 0x80 by {
        assert(h[i] == b[i]);
    }
    crate::blend::lemma_latin1_ascii(h);
    assert(h.take(7) =~= b.take(7));
}

} // verus!
