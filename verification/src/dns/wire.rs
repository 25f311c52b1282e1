//! Reading and writing the DNS wire format: big-endian integers, byte
//! strings and (possibly compressed) domain names.

use std::collections::HashSet;

use vstd::prelude::*;
use vstd::set_lib::set_int_range;

use crate::error::{ErrorView, ResolverError};
use crate::text::{
    ascii_lower, decimal, decimal_u64, lossy_string, lossy_text, lower_text, strip_dot, strip_trailing_dot,
    to_lowercase,
};
use vstd::utf8::{encode_utf8, is_ascii_chars};

verus! {

broadcast use vstd::std_specs::hash::group_hash_axioms;

pub const MAX_NAME_LENGTH: usize = 255;

pub const MAX_LABEL_LENGTH: usize = 63;

pub const POINTER_MASK: u8 = 0xC0;

pub const MAX_UDP_PAYLOAD: usize = 512;

pub const DNS_PORT: u16 = 53;

/// What decoding a buffer from a position gives: a value and the position
/// after it, an error and the position the reader is left at, or the case in
/// which a too-long label runs past the end of the buffer, where reading
/// its text would index out of bounds.
pub enum Decoded<T> {
    Value(T, int),
    Error(ErrorView, int),
    LabelOverrun,
}

impl<T> Decoded<T> {
    pub open spec fn is_overrun(self) -> bool {
        self is LabelOverrun
    }
}

/// Decoding `d`, then, from where it left off, what `f` decodes from its
/// value; an error or an overrun of `d` stops there.
pub open spec fn and_then<A, B>(d: Decoded<A>, f: spec_fn(A, int) -> Decoded<B>) -> Decoded<B> {
    match d {
        Decoded::Value(a, p) => f(a, p),
        Decoded::Error(e, p) => Decoded::Error(e, p),
        Decoded::LabelOverrun => Decoded::LabelOverrun,
    }
}

/// `r` is what the decoding `d` describes, and `pos` the position it leaves.
pub open spec fn result_agrees<T: View>(
    r: Result<T, ResolverError>,
    d: Decoded<T::V>,
    pos: int,
) -> bool {
    match d {
        Decoded::Value(v, p) => r is Ok && r->Ok_0@ == v && pos == p,
        Decoded::Error(e, p) => r is Err && r->Err_0@ == e && pos == p,
        Decoded::LabelOverrun => false,
    }
}

/// As [`result_agrees`], with `None` standing for a label overrun.
pub open spec fn outcome_agrees<T: View>(
    o: Option<Result<T, ResolverError>>,
    d: Decoded<T::V>,
    pos: int,
) -> bool {
    match d {
        Decoded::LabelOverrun => o is None,
        _ => o matches Some(r) && result_agrees(r, d, pos),
    }
}

/// The text of the error for a read of `n` bytes at `pos` in a buffer of
/// `len` bytes that holds fewer.
pub open spec fn shortage_message(n: int, pos: int, len: int) -> Seq<char> {
    "Unexpected end of message: need "@ + decimal(n as nat) + " bytes at position "@
        + decimal(pos as nat) + ", have "@ + decimal(len as nat)
}

/// Reading `n` bytes at `pos`: the bytes, or a shortage error that leaves
/// the position where it was.
pub open spec fn decode_bytes(buf: Seq<u8>, pos: int, n: int) -> Decoded<Seq<u8>> {
    if pos + n > buf.len() {
        Decoded::Error(ErrorView::Protocol(shortage_message(n, pos, buf.len() as int)), pos)
    } else {
        Decoded::Value(buf.subrange(pos, pos + n), pos + n)
    }
}

pub open spec fn decode_u8(buf: Seq<u8>, pos: int) -> Decoded<u8> {
    match decode_bytes(buf, pos, 1) {
        Decoded::Value(b, p) => Decoded::Value(b[0], p),
        Decoded::Error(e, p) => Decoded::Error(e, p),
        Decoded::LabelOverrun => Decoded::LabelOverrun,
    }
}

/// The big-endian value of two bytes.
pub open spec fn be16(b0: u8, b1: u8) -> int {
    b0 * 256 + b1
}

/// The big-endian value of four bytes.
pub open spec fn be32(b0: u8, b1: u8, b2: u8, b3: u8) -> int {
    b0 * 16777216 + b1 * 65536 + b2 * 256 + b3
}

/// The two's-complement reading of a 32-bit pattern.
pub open spec fn signed32(u: int) -> int {
    if u < 0x8000_0000 {
        u
    } else {
        u - 0x1_0000_0000
    }
}

pub open spec fn decode_u16(buf: Seq<u8>, pos: int) -> Decoded<u16> {
    match decode_bytes(buf, pos, 2) {
        Decoded::Value(b, p) => Decoded::Value(be16(b[0], b[1]) as u16, p),
        Decoded::Error(e, p) => Decoded::Error(e, p),
        Decoded::LabelOverrun => Decoded::LabelOverrun,
    }
}

pub open spec fn decode_u32(buf: Seq<u8>, pos: int) -> Decoded<u32> {
    match decode_bytes(buf, pos, 4) {
        Decoded::Value(b, p) => Decoded::Value(be32(b[0], b[1], b[2], b[3]) as u32, p),
        Decoded::Error(e, p) => Decoded::Error(e, p),
        Decoded::LabelOverrun => Decoded::LabelOverrun,
    }
}

pub open spec fn decode_i32(buf: Seq<u8>, pos: int) -> Decoded<i32> {
    match decode_bytes(buf, pos, 4) {
        Decoded::Value(b, p) => Decoded::Value(signed32(be32(b[0], b[1], b[2], b[3])) as i32, p),
        Decoded::Error(e, p) => Decoded::Error(e, p),
        Decoded::LabelOverrun => Decoded::LabelOverrun,
    }
}

/// The state of a walk along the labels of a name: where it reads, where the
/// first compression pointer it followed stood, where the reader has been
/// left so far, the offsets pointers have led to, and the labels read.
pub struct NameWalk {
    pub pos: int,
    pub first_pointer: Option<int>,
    pub resume: int,
    pub visited: Set<int>,
    pub labels: Seq<Seq<u8>>,
}

/// The number of offsets of the buffer that no pointer has led to yet.
pub open spec fn unvisited(len: int, visited: Set<int>) -> nat {
    set_int_range(0, len).difference(visited).len()
}

/// Following one more pointer, to an offset in the buffer not visited
/// before, leaves one offset fewer unvisited.
pub proof fn lemma_visit_offset(len: int, visited: Set<int>, offset: int)
    requires
        0 <= offset < len,
        !visited.contains(offset),
    ensures
        unvisited(len, visited.insert(offset)) < unvisited(len, visited),
{
    vstd::set_lib::lemma_int_range(0, len);
    let d = set_int_range(0, len).difference(visited);
    assert(d.finite());
    assert(d.contains(offset));
    assert(set_int_range(0, len).difference(visited.insert(offset)) =~= d.remove(offset));
}

/// The walk that reads the labels of a name: a length byte of zero ends the
/// name, a byte with both high bits set starts a two-byte pointer to
/// elsewhere in the buffer, any other byte is the length of a label.
pub open spec fn name_walk(buf: Seq<u8>, w: NameWalk) -> Decoded<Seq<Seq<u8>>>
    decreases unvisited(buf.len() as int, w.visited), buf.len() - w.pos,
{
    if w.pos < 0 || w.pos >= buf.len() {
        Decoded::Error(
            ErrorView::Protocol("unexpected end of message while reading label"@),
            w.resume,
        )
    } else {
        let b = buf[w.pos];
        if b == 0 {
            Decoded::Value(
                w.labels,
                match w.first_pointer {
                    Some(p) => p + 2,
                    None => w.pos + 1,
                },
            )
        } else if b >= 0xC0 {
            if w.pos + 1 >= buf.len() {
                Decoded::Error(ErrorView::Protocol("truncated compression pointer"@), w.resume)
            } else {
                let offset = (b - 0xC0) * 256 + buf[w.pos + 1];
                if offset >= buf.len() {
                    Decoded::Error(
                        ErrorView::InvalidPointer { offset: offset as usize, len: buf.len() as usize },
                        w.resume,
                    )
                } else if w.visited.contains(offset) {
                    Decoded::Error(ErrorView::PointerLoop, w.resume)
                } else {
                    proof {
                        lemma_visit_offset(buf.len() as int, w.visited, offset);
                    }
                    name_walk(
                        buf,
                        NameWalk {
                            pos: offset,
                            first_pointer: if w.first_pointer is None {
                                Some(w.pos)
                            } else {
                                w.first_pointer
                            },
                            resume: w.resume,
                            visited: w.visited.insert(offset),
                            labels: w.labels,
                        },
                    )
                }
            }
        } else if b > 63 {
            if w.pos + 1 + b > buf.len() {
                Decoded::LabelOverrun
            } else {
                Decoded::Error(
                    ErrorView::LabelTooLong {
                        label: lossy_text(buf.subrange(w.pos + 1, w.pos + 1 + b)),
                    },
                    w.resume,
                )
            }
        } else if w.pos + 1 + b > buf.len() {
            Decoded::Error(ErrorView::Protocol("truncated label in name"@), w.resume)
        } else {
            let next = w.pos + 1 + b;
            name_walk(
                buf,
                NameWalk {
                    pos: next,
                    first_pointer: w.first_pointer,
                    resume: if w.first_pointer is None {
                        next
                    } else {
                        w.resume
                    },
                    visited: w.visited,
                    labels: w.labels.push(buf.subrange(w.pos + 1, next)),
                },
            )
        }
    }
}

/// The offsets that pointers have led to when the walk stops, whether it
/// ends the name, fails, or meets a too-long label: a pointer to an offset
/// already visited stops the walk without adding to the set.
pub open spec fn walk_visited(buf: Seq<u8>, w: NameWalk) -> Set<int>
    decreases unvisited(buf.len() as int, w.visited), buf.len() - w.pos,
{
    if w.pos < 0 || w.pos >= buf.len() {
        w.visited
    } else {
        let b = buf[w.pos];
        if b == 0 {
            w.visited
        } else if b >= 0xC0 {
            if w.pos + 1 >= buf.len() {
                w.visited
            } else {
                let offset = (b - 0xC0) * 256 + buf[w.pos + 1];
                if offset >= buf.len() || w.visited.contains(offset) {
                    w.visited
                } else {
                    proof {
                        lemma_visit_offset(buf.len() as int, w.visited, offset);
                    }
                    walk_visited(
                        buf,
                        NameWalk {
                            pos: offset,
                            first_pointer: if w.first_pointer is None {
                                Some(w.pos)
                            } else {
                                w.first_pointer
                            },
                            resume: w.resume,
                            visited: w.visited.insert(offset),
                            labels: w.labels,
                        },
                    )
                }
            }
        } else if b > 63 || w.pos + 1 + b > buf.len() {
            w.visited
        } else {
            let next = w.pos + 1 + b;
            walk_visited(
                buf,
                NameWalk {
                    pos: next,
                    first_pointer: w.first_pointer,
                    resume: if w.first_pointer is None {
                        next
                    } else {
                        w.resume
                    },
                    visited: w.visited,
                    labels: w.labels.push(buf.subrange(w.pos + 1, next)),
                },
            )
        }
    }
}

/// The walk as it starts at `pos`.
pub open spec fn start_walk(pos: int) -> NameWalk {
    NameWalk { pos, first_pointer: None, resume: pos, visited: Set::empty(), labels: seq![] }
}

/// Texts joined with `.` between them.
pub open spec fn join_dots(texts: Seq<Seq<char>>) -> Seq<char>
    decreases texts.len(),
{
    if texts.len() == 0 {
        seq![]
    } else if texts.len() == 1 {
        texts[0]
    } else {
        join_dots(texts.drop_last()) + seq!['.'] + texts.last()
    }
}

/// The text of a label as read: its bytes decoded, then lower-cased.
pub open spec fn label_text(label: Seq<u8>) -> Seq<char> {
    lower_text(lossy_text(label))
}

/// The text of a name read from its labels: the label texts joined by dots,
/// with a final dot.
pub open spec fn name_text(labels: Seq<Seq<u8>>) -> Seq<char> {
    join_dots(labels.map_values(|l: Seq<u8>| label_text(l))) + seq!['.']
}

/// Reading a name at `pos`: a zero byte there is the root name `.`; any
/// other name is read by the walk along its labels.
pub open spec fn decode_name(buf: Seq<u8>, pos: int) -> Decoded<Seq<char>> {
    if 0 <= pos < buf.len() && buf[pos] == 0 {
        Decoded::Value(seq!['.'], pos + 1)
    } else {
        match name_walk(buf, start_walk(pos)) {
            Decoded::Value(labels, p) => Decoded::Value(name_text(labels), p),
            Decoded::Error(e, p) => Decoded::Error(e, p),
            Decoded::LabelOverrun => Decoded::LabelOverrun,
        }
    }
}

/// A cursor over a received message.
#[derive(Debug)]
pub struct WireReader<'a> {
    buf: &'a [u8],
    pos: usize,
}

impl<'a> WireReader<'a> {
    /// The bytes under the cursor.
    pub closed spec fn bytes(&self) -> Seq<u8> {
        self.buf@
    }

    /// Where the cursor stands.
    pub closed spec fn cursor(&self) -> int {
        self.pos as int
    }

    /// The cursor stands inside the buffer or just past it, and the buffer
    /// is no longer than a slice can be.
    pub open spec fn wf(&self) -> bool {
        &&& 0 <= self.cursor() <= self.bytes().len()
        &&& self.bytes().len() <= isize::MAX
    }

    pub fn new(buf: &'a [u8]) -> (r: Self)
        requires
            buf@.len() <= isize::MAX,
        ensures
            r.bytes() == buf@,
            r.cursor() == 0,
            r.wf(),
    {
        Self { buf, pos: 0 }
    }

    pub fn position(&self) -> (p: usize)
        ensures
            p == self.cursor(),
    {
        self.pos
    }

    pub fn len(&self) -> (n: usize)
        ensures
            n == self.bytes().len(),
    {
        self.buf.len()
    }

    /// The shortage error, or nothing when `n` more bytes are there.
    fn check(&self, n: usize) -> (r: Result<(), ResolverError>)
        requires
            self.wf(),
            self.cursor() + n <= usize::MAX,
        ensures
            r is Ok <==> self.cursor() + n <= self.bytes().len(),
            r matches Err(e) ==> e@ == ErrorView::Protocol(
                shortage_message(n as int, self.cursor(), self.bytes().len() as int),
            ),
    {
        if self.pos + n > self.buf.len() {
            let mut msg = String::from_str("Unexpected end of message: need ");
            msg.append(decimal_u64(n as u64).as_str());
            msg.append(" bytes at position ");
            msg.append(decimal_u64(self.pos as u64).as_str());
            msg.append(", have ");
            msg.append(decimal_u64(self.buf.len() as u64).as_str());
            proof {
                reveal_strlit("Unexpected end of message: need ");
                reveal_strlit(" bytes at position ");
                reveal_strlit(", have ");
            }
            return Err(ResolverError::Protocol(msg));
        }
        Ok(())
    }

    /// The next `n` bytes, without moving.
    pub fn peek(&self, n: usize) -> (r: Result<&'a [u8], ResolverError>)
        requires
            self.wf(),
            self.cursor() + n <= usize::MAX,
        ensures
            match decode_bytes(self.bytes(), self.cursor(), n as int) {
                Decoded::Value(b, _) => r matches Ok(s) && s@ == b,
                Decoded::Error(e, _) => r matches Err(x) && x@ == e,
                Decoded::LabelOverrun => false,
            },
    {
        self.check(n)?;
        Ok(vstd::slice::slice_subrange(self.buf, self.pos, self.pos + n))
    }

    /// Moves `n` bytes forward.
    pub fn skip(&mut self, n: usize) -> (r: Result<(), ResolverError>)
        requires
            old(self).wf(),
            old(self).cursor() + n <= usize::MAX,
        ensures
            final(self).wf(),
            final(self).bytes() == old(self).bytes(),
            match decode_bytes(old(self).bytes(), old(self).cursor(), n as int) {
                Decoded::Value(_, p) => r is Ok && final(self).cursor() == p,
                Decoded::Error(e, p) => r matches Err(x) && x@ == e && final(self).cursor() == p,
                Decoded::LabelOverrun => false,
            },
    {
        self.check(n)?;
        self.pos += n;
        Ok(())
    }

    pub fn read_u8(&mut self) -> (r: Result<u8, ResolverError>)
        requires
            old(self).wf(),
        ensures
            final(self).wf(),
            final(self).bytes() == old(self).bytes(),
            result_agrees(r, decode_u8(old(self).bytes(), old(self).cursor()), final(self).cursor()),
    {
        self.check(1)?;
        let v = self.buf[self.pos];
        self.pos += 1;
        Ok(v)
    }

    /// Takes `n` bytes and moves past them.
    fn read_data(&mut self, n: usize) -> (r: Result<&'a [u8], ResolverError>)
        requires
            old(self).wf(),
            old(self).cursor() + n <= usize::MAX,
        ensures
            final(self).wf(),
            final(self).bytes() == old(self).bytes(),
            match decode_bytes(old(self).bytes(), old(self).cursor(), n as int) {
                Decoded::Value(b, p) => r matches Ok(s) && s@ == b && final(self).cursor() == p,
                Decoded::Error(e, p) => r matches Err(x) && x@ == e && final(self).cursor() == p,
                Decoded::LabelOverrun => false,
            },
    {
        self.check(n)?;
        let s = vstd::slice::slice_subrange(self.buf, self.pos, self.pos + n);
        self.pos += n;
        Ok(s)
    }

    pub fn read_u16(&mut self) -> (r: Result<u16, ResolverError>)
        requires
            old(self).wf(),
        ensures
            final(self).wf(),
            final(self).bytes() == old(self).bytes(),
            result_agrees(r, decode_u16(old(self).bytes(), old(self).cursor()), final(self).cursor()),
    {
        let bytes = self.read_data(2)?;
        Ok((bytes[0] as u16) * 256 + bytes[1] as u16)
    }

    /// The unsigned value of the next four bytes.
    fn read_be32(&mut self) -> (r: Result<u32, ResolverError>)
        requires
            old(self).wf(),
        ensures
            final(self).wf(),
            final(self).bytes() == old(self).bytes(),
            result_agrees(r, decode_u32(old(self).bytes(), old(self).cursor()), final(self).cursor()),
    {
        let bytes = self.read_data(4)?;
        Ok((bytes[0] as u32) * 16777216 + (bytes[1] as u32) * 65536 + (bytes[2] as u32) * 256
            + bytes[3] as u32)
    }

    pub fn read_u32(&mut self) -> (r: Result<u32, ResolverError>)
        requires
            old(self).wf(),
        ensures
            final(self).wf(),
            final(self).bytes() == old(self).bytes(),
            result_agrees(r, decode_u32(old(self).bytes(), old(self).cursor()), final(self).cursor()),
    {
        self.read_be32()
    }

    pub fn read_i32(&mut self) -> (r: Result<i32, ResolverError>)
        requires
            old(self).wf(),
        ensures
            final(self).wf(),
            final(self).bytes() == old(self).bytes(),
            result_agrees(r, decode_i32(old(self).bytes(), old(self).cursor()), final(self).cursor()),
    {
        let u = self.read_be32()?;
        if u < 0x8000_0000 {
            Ok(u as i32)
        } else {
            Ok(i32::MIN + ((u - 0x8000_0000) as i32))
        }
    }

    pub fn read_vec(&mut self, n: usize) -> (r: Result<Vec<u8>, ResolverError>)
        requires
            old(self).wf(),
            old(self).cursor() + n <= usize::MAX,
        ensures
            final(self).wf(),
            final(self).bytes() == old(self).bytes(),
            result_agrees(r, decode_bytes(old(self).bytes(), old(self).cursor(), n as int), final(self).cursor()),
    {
        let s = self.read_data(n)?;
        Ok(vstd::slice::slice_to_vec(s))
    }
    /// Reads a name, decompressing pointers.  `None` is the case of a
    /// too-long label whose bytes run past the end of the buffer.
    pub fn read_name_checked(&mut self) -> (r: Option<Result<String, ResolverError>>)
        requires
            old(self).wf(),
        ensures
            final(self).wf(),
            final(self).bytes() == old(self).bytes(),
            outcome_agrees(r, decode_name(old(self).bytes(), old(self).cursor()), final(self).cursor()),
    {
        if self.pos < self.buf.len() && self.buf[self.pos] == 0 {
            self.pos += 1;
            let root = String::from_str(".");
            proof {
                reveal_strlit(".");
                assert(root@ =~= seq!['.']);
            }
            return Some(Ok(root));
        }
        let mut labels: Vec<String> = Vec::with_capacity(4);
        let mut visited: HashSet<usize> = HashSet::new();
        let start = self.pos;
        match self.read_labels(&mut labels, &mut visited, start) {
            None => {
                return None;
            },
            Some(Err(e)) => {
                return Some(Err(e));
            },
            Some(Ok(())) => {},
        }
        let ghost texts = Seq::new(labels@.len(), |i: int| labels@[i]@);
        let mut name = String::new();
        let n = labels.len();
        for i in 0..n
            invariant
                n == labels@.len(),
                texts.len() == n,
                forall|j: int| 0 <= j < n ==> #[trigger] texts[j] == labels@[j]@,
                name@ == join_dots(texts.take(i as int)),
        {
            if i > 0 {
                name.append(".");
                proof {
                    reveal_strlit(".");
                    assert(".".view() =~= seq!['.']);
                }
            }
            name.append(labels[i].as_str());
            proof {
                assert(texts.take(i + 1).drop_last() =~= texts.take(i as int));
                if i == 0 {
                    assert(texts.take(0) =~= Seq::<Seq<char>>::empty());
                }
            }
        }
        let ghost joined = name@;
        name.append(".");
        proof {
            reveal_strlit(".");
            assert(".".view() =~= seq!['.']);
            assert(texts.take(n as int) =~= texts);
            assert(name@ =~= joined + seq!['.']);
            let ls = name_walk(old(self).bytes(), start_walk(start as int))->Value_0;
            assert(texts =~= ls.map_values(|l: Seq<u8>| label_text(l)));
        }
        Some(Ok(name))
    }

    /// Reads a name, decompressing pointers.  The name is returned in lower
    /// case with a final dot.
    pub fn read_name(&mut self) -> (r: Result<String, ResolverError>)
        requires
            old(self).wf(),
            !decode_name(old(self).bytes(), old(self).cursor()).is_overrun(),
        ensures
            final(self).wf(),
            final(self).bytes() == old(self).bytes(),
            result_agrees(r, decode_name(old(self).bytes(), old(self).cursor()), final(self).cursor()),
    {
        self.read_name_checked().unwrap()
    }

    /// Follows the labels of a name from `start_pos`, appending the text of
    /// each to `labels` and recording in `visited` where pointers led.  The
    /// reader is left after the name as it stands in place: after its
    /// terminating zero, or after the first pointer followed.  `None` is the
    /// case of a too-long label that runs past the end of the buffer.
    fn read_labels(
        &mut self,
        labels: &mut Vec<String>,
        visited: &mut HashSet<usize>,
        start_pos: usize,
    ) -> (r: Option<Result<(), ResolverError>>)
        requires
            old(self).wf(),
            start_pos == old(self).cursor(),
            old(labels)@.len() == 0,
            old(visited)@ == Set::<usize>::empty(),
        ensures
            final(self).wf(),
            final(self).bytes() == old(self).bytes(),
            forall|x: usize|
                final(visited)@.contains(x) <==> #[trigger] walk_visited(
                    old(self).bytes(),
                    start_walk(start_pos as int),
                ).contains(x as int),
            match name_walk(old(self).bytes(), start_walk(start_pos as int)) {
                Decoded::Value(ls, p) => {
                    &&& r matches Some(Ok(_))
                    &&& final(self).cursor() == p
                    &&& final(labels)@.len() == ls.len()
                    &&& forall|i: int| 0 <= i < ls.len() ==> #[trigger] final(labels)@[i]@ == label_text(ls[i])
                },
                Decoded::Error(e, p) => r matches Some(Err(x)) && x@ == e && final(self).cursor() == p,
                Decoded::LabelOverrun => r is None,
            },
    {
        let ghost buf = self.buf@;
        let ghost target = name_walk(buf, start_walk(start_pos as int));
        let ghost mut walk = start_walk(start_pos as int);
        let len = self.buf.len();
        let mut pos = start_pos;
        let mut first_pointer: Option<usize> = None;

        loop
            invariant
                self.buf@ == buf,
                buf == old(self).bytes(),
                target == name_walk(old(self).bytes(), start_walk(start_pos as int)),
                len == buf.len(),
                self.wf(),
                0 <= pos <= len,
                walk.pos == pos,
                walk.resume == self.pos,
                match first_pointer {
                    Some(p) => walk.first_pointer == Some(p as int) && p + 1 < len,
                    None => walk.first_pointer is None,
                },
                forall|x: usize| visited@.contains(x) <==> #[trigger] walk.visited.contains(x as int),
                forall|x: int| #[trigger] walk.visited.contains(x) ==> 0 <= x < len,
                labels@.len() == walk.labels.len(),
                forall|i: int| 0 <= i < walk.labels.len() ==> #[trigger] labels@[i]@ == label_text(walk.labels[i]),
                name_walk(buf, walk) == target,
                walk_visited(buf, walk) == walk_visited(buf, start_walk(start_pos as int)),
            decreases unvisited(len as int, walk.visited), len - pos,
        {
            if pos >= len {
                return Some(
                    Err(
                        ResolverError::Protocol(
                            String::from_str("unexpected end of message while reading label"),
                        ),
                    ),
                );
            }
            let len_or_ptr = self.buf[pos];

            if len_or_ptr == 0 {
                match first_pointer {
                    Some(ptr_pos) => {
                        self.pos = ptr_pos + 2;
                    },
                    None => {
                        self.pos = pos + 1;
                    },
                }
                return Some(Ok(()));
            }
            assert((len_or_ptr & 0xC0u8 == 0xC0u8) == (len_or_ptr >= 0xC0u8)) by (bit_vector);

            if len_or_ptr & POINTER_MASK == POINTER_MASK {
                if pos + 1 >= len {
                    return Some(
                        Err(ResolverError::Protocol(String::from_str("truncated compression pointer"))),
                    );
                }
                let offset_hi = (len_or_ptr & !POINTER_MASK) as usize;
                let offset_lo = self.buf[pos + 1] as usize;
                assert(len_or_ptr >= 0xC0u8 ==> (len_or_ptr & !0xC0u8) == len_or_ptr - 0xC0u8)
                    by (bit_vector);
                assert(offset_hi < 64 && offset_lo < 256 ==> (offset_hi << 8) | offset_lo
                    == offset_hi * 256 + offset_lo) by (bit_vector);
                let offset = (offset_hi << 8) | offset_lo;

                if offset >= len {
                    return Some(Err(ResolverError::InvalidPointer { offset, len }));
                }
                if !visited.insert(offset) {
                    return Some(Err(ResolverError::PointerLoop));
                }
                if first_pointer.is_none() {
                    first_pointer = Some(pos);
                }
                proof {
                    lemma_visit_offset(len as int, walk.visited, offset as int);
                    walk = NameWalk {
                        pos: offset as int,
                        first_pointer: if walk.first_pointer is None {
                            Some(pos as int)
                        } else {
                            walk.first_pointer
                        },
                        resume: walk.resume,
                        visited: walk.visited.insert(offset as int),
                        labels: walk.labels,
                    };
                }
                pos = offset;
                continue;
            }
            let label_len = len_or_ptr as usize;
            if label_len > MAX_LABEL_LENGTH {
                if pos + 1 + label_len > len {
                    return None;
                }
                let text = lossy_string(vstd::slice::slice_subrange(self.buf, pos + 1, pos + 1 + label_len));
                return Some(Err(ResolverError::LabelTooLong { label: text }));
            }
            pos += 1;

            if pos + label_len > len {
                return Some(Err(ResolverError::Protocol(String::from_str("truncated label in name"))));
            }
            let label_bytes = vstd::slice::slice_subrange(self.buf, pos, pos + label_len);
            let decoded = lossy_string(label_bytes);
            labels.push(to_lowercase(decoded.as_str()));

            pos += label_len;

            if first_pointer.is_none() {
                self.pos = pos;
            }
            proof {
                walk = NameWalk {
                    pos: pos as int,
                    first_pointer: walk.first_pointer,
                    resume: self.pos as int,
                    visited: walk.visited,
                    labels: walk.labels.push(buf.subrange(pos - label_len, pos as int)),
                };
            }
        }
    }
}

/// The labels of a text: the runs of characters between dots, the first
/// one continuing `cur`.
pub open spec fn split_dots_from(cur: Seq<char>, s: Seq<char>) -> Seq<Seq<char>>
    decreases s.len(),
{
    if s.len() == 0 {
        seq![cur]
    } else if s[0] == '.' {
        seq![cur] + split_dots_from(seq![], s.drop_first())
    } else {
        split_dots_from(cur.push(s[0]), s.drop_first())
    }
}

/// The labels of a text: the runs of characters between dots, empty runs
/// included.
pub open spec fn split_dots(s: Seq<char>) -> Seq<Seq<char>> {
    split_dots_from(seq![], s)
}

/// A label on the wire: its length in bytes, then its UTF-8 bytes.
pub open spec fn label_wire(label: Seq<char>) -> Seq<u8> {
    seq![encode_utf8(label).len() as u8] + encode_utf8(label)
}

/// Writing the labels of `name` in order: each is refused if it is empty or
/// longer than 63 bytes, which stops the writing there; after the last a
/// zero byte ends the name.  The bytes written, and the error if any.
pub open spec fn labels_wire(ls: Seq<Seq<char>>, name: Seq<char>) -> (Seq<u8>, Option<ErrorView>)
    decreases ls.len(),
{
    if ls.len() == 0 {
        (seq![0u8], None)
    } else if ls[0].len() == 0 {
        (seq![], Some(ErrorView::EmptyLabel(name)))
    } else if encode_utf8(ls[0]).len() > 63 {
        (seq![], Some(ErrorView::LabelTooLong { label: ls[0] }))
    } else {
        let rest = labels_wire(ls.drop_first(), name);
        (label_wire(ls[0]) + rest.0, rest.1)
    }
}

/// Writing a name: one trailing dot is dropped; the empty name is the single
/// zero byte of the root; a name of more than 255 bytes is refused whole;
/// otherwise its labels are written.  The bytes written, and the error if any.
pub open spec fn name_wire(name: Seq<char>) -> (Seq<u8>, Option<ErrorView>) {
    let n = strip_dot(name);
    if n.len() == 0 {
        (seq![0u8], None)
    } else if encode_utf8(n).len() > 255 {
        (seq![], Some(ErrorView::NameTooLong(n)))
    } else {
        labels_wire(split_dots(n), n)
    }
}

/// The two bytes of a 16-bit value, most significant first.
pub open spec fn be16_bytes(v: u16) -> Seq<u8> {
    seq![(v / 256) as u8, (v % 256) as u8]
}

/// The four bytes of a 32-bit value, most significant first.
pub open spec fn be32_bytes(v: u32) -> Seq<u8> {
    seq![(v / 16777216) as u8, ((v / 65536) % 256) as u8, ((v / 256) % 256) as u8, (v % 256) as u8]
}

/// A growing buffer for an outgoing message.
pub struct WireWriter {
    buf: Vec<u8>,
}

impl View for WireWriter {
    type V = Seq<u8>;

    closed spec fn view(&self) -> Seq<u8> {
        self.buf@
    }
}

impl WireWriter {
    pub fn new() -> (w: Self)
        ensures
            w@ == Seq::<u8>::empty(),
    {
        Self { buf: Vec::new() }
    }

    pub fn with_capacity(capacity: usize) -> (w: Self)
        ensures
            w@ == Seq::<u8>::empty(),
    {
        Self { buf: Vec::with_capacity(capacity) }
    }

    pub fn len(&self) -> (n: usize)
        ensures
            n == self@.len(),
    {
        self.buf.len()
    }

    pub fn is_empty(&self) -> (b: bool)
        ensures
            b == (self@.len() == 0),
    {
        self.buf.len() == 0
    }

    pub fn write_u8(&mut self, v: u8)
        ensures
            final(self)@ == old(self)@.push(v),
    {
        self.buf.push(v);
    }

    pub fn write_u16(&mut self, v: u16)
        ensures
            final(self)@ == old(self)@ + be16_bytes(v),
    {
        self.buf.push((v / 256) as u8);
        self.buf.push((v % 256) as u8);
        assert(self.buf@ =~= old(self)@ + be16_bytes(v));
    }

    pub fn write_u32(&mut self, v: u32)
        ensures
            final(self)@ == old(self)@ + be32_bytes(v),
    {
        self.buf.push((v / 16777216) as u8);
        self.buf.push(((v / 65536) % 256) as u8);
        self.buf.push(((v / 256) % 256) as u8);
        self.buf.push((v % 256) as u8);
        assert(self.buf@ =~= old(self)@ + be32_bytes(v));
    }

    pub fn write_bytes(&mut self, bytes: &[u8])
        ensures
            final(self)@ == old(self)@ + bytes@,
    {
        let n = bytes.len();
        for i in 0..n
            invariant
                n == bytes@.len(),
                self.buf@ == old(self)@ + bytes@.take(i as int),
        {
            self.buf.push(bytes[i]);
            assert(bytes@.take(i + 1) =~= bytes@.take(i as int).push(bytes@[i as int]));
        }
        assert(bytes@.take(n as int) =~= bytes@);
    }

    pub fn into_bytes(self) -> (v: Vec<u8>)
        ensures
            v@ == self@,
    {
        self.buf
    }

    /// Overwrites the two bytes at `offset` with `v`, most significant first.
    pub fn set_u16(&mut self, offset: usize, v: u16)
        requires
            offset + 1 < old(self)@.len(),
        ensures
            final(self)@ == old(self)@.update(offset as int, (v / 256) as u8).update(
                offset + 1,
                (v % 256) as u8,
            ),
    {
        let len = self.buf.len();
        // The length of a vector fits in `usize`, so `offset + 1` does too.
        assert(offset + 1 < len);
        self.buf.set(offset, (v / 256) as u8);
        self.buf.set(offset + 1, (v % 256) as u8);
    }

    /// Writes a domain name as its labels.  On an error the labels before the
    /// refused one have been written.
    pub fn write_name(&mut self, full_name: &str) -> (r: Result<(), ResolverError>)
        ensures
            final(self)@ == old(self)@ + name_wire(full_name@).0,
            r is Ok <==> name_wire(full_name@).1 is None,
            r matches Err(e) ==> name_wire(full_name@).1 == Some(e@),
    {
        let ghost given = full_name@;
        let name = strip_trailing_dot(full_name);

        if name.is_empty() {
            self.write_u8(0);
            return Ok(());
        }

        let len = name.as_bytes().len();
        if len > MAX_NAME_LENGTH {
            return Err(ResolverError::NameTooLong(String::from_str(name)));
        }

        let ghost n = name@;
        let ghost total = labels_wire(split_dots(n), n);
        let ghost start_len = self.buf@.len();
        proof {
            assert(total == name_wire(given));
            assert(n.skip(0) =~= n);
            assert(n.subrange(0, 0) =~= Seq::<char>::empty());
            assert(self.buf@.skip(start_len as int) =~= Seq::<u8>::empty());
        }
        let count = name.unicode_len();
        let mut start: usize = 0;
        let mut i: usize = 0;
        while i < count
            invariant
                n == name@,
                count == n.len(),
                0 <= start <= i <= count,
                total == labels_wire(split_dots(n), n),
                total == name_wire(given),
                given == full_name@,
                self.buf@.len() >= start_len,
                self.buf@.take(start_len as int) == old(self)@,
                start_len == old(self)@.len(),
                ({
                    let rest = labels_wire(
                        split_dots_from(n.subrange(start as int, i as int), n.skip(i as int)),
                        n,
                    );
                    &&& total.0 == self.buf@.skip(start_len as int) + rest.0
                    &&& total.1 == rest.1
                }),
            decreases count - i,
        {
            let c = name.get_char(i);
            let ghost cur = n.subrange(start as int, i as int);
            proof {
                assert(n.skip(i as int).drop_first() =~= n.skip(i + 1));
                assert(n.skip(i as int)[0] == c);
            }
            if c == '.' {
                let label = name.substring_char(start, i);
                let ghost tail = split_dots_from(seq![], n.skip(i + 1));
                let ghost ls = seq![cur] + tail;
                proof {
                    assert(split_dots_from(cur, n.skip(i as int)) == ls);
                    assert(ls[0] == cur);
                    assert(ls.drop_first() =~= tail);
                    assert(n.subrange(i + 1, i + 1) =~= Seq::<char>::empty());
                    assert(self.buf@ =~= self.buf@.take(start_len as int) + self.buf@.skip(start_len as int));
                }
                let ghost before = self.buf@;
                match self.write_label(label, name) {
                    Err(e) => {
                        proof {
                            assert(self@ =~= old(self)@ + total.0);
                        }
                        return Err(e);
                    },
                    Ok(()) => {},
                }
                proof {
                    assert(self.buf@.skip(start_len as int) =~= before.skip(start_len as int)
                        + label_wire(cur));
                    assert(self.buf@.take(start_len as int) =~= before.take(start_len as int));
                }
                start = i + 1;
            } else {
                proof {
                    assert(cur.push(c) =~= n.subrange(start as int, i + 1));
                }
            }
            i += 1;
        }
        let label = name.substring_char(start, count);
        let ghost cur = n.subrange(start as int, count as int);
        proof {
            assert(n.skip(count as int) =~= Seq::<char>::empty());
            assert(split_dots_from(cur, n.skip(count as int)) == seq![cur]);
            assert(seq![cur].drop_first() =~= Seq::<Seq<char>>::empty());
            assert(self.buf@ =~= self.buf@.take(start_len as int) + self.buf@.skip(start_len as int));
        }
        let ghost before = self.buf@;
        proof {
            assert(labels_wire(Seq::<Seq<char>>::empty(), n) == (seq![0u8], None::<ErrorView>));
        }
        match self.write_label(label, name) {
            Err(e) => {
                proof {
                    assert(self@ =~= old(self)@ + total.0);
                }
                return Err(e);
            },
            Ok(()) => {},
        }
        self.write_u8(0);
        proof {
            assert(self.buf@.skip(start_len as int) =~= before.skip(start_len as int)
                + label_wire(label@) + seq![0u8]);
            assert(self.buf@.take(start_len as int) =~= before.take(start_len as int));
            assert(self@ =~= old(self)@ + total.0);
        }
        Ok(())
    }

    /// Writes one label of `name`, or refuses it when it is empty or longer
    /// than 63 bytes, writing nothing then.
    fn write_label(&mut self, label: &str, name: &str) -> (r: Result<(), ResolverError>)
        ensures
            label@.len() == 0 ==> (r matches Err(e) && e@ == ErrorView::EmptyLabel(name@)
                && final(self)@ == old(self)@),
            label@.len() != 0 && encode_utf8(label@).len() > 63 ==> (r matches Err(e) && e@
                == (ErrorView::LabelTooLong { label: label@ }) && final(self)@ == old(self)@),
            label@.len() != 0 && encode_utf8(label@).len() <= 63 ==> r is Ok && final(self)@
                == old(self)@ + label_wire(label@),
    {
        let label_bytes = label.as_bytes();
        if label_bytes.len() == 0 {
            return Err(ResolverError::EmptyLabel(String::from_str(name)));
        }
        if label_bytes.len() > MAX_LABEL_LENGTH {
            return Err(ResolverError::LabelTooLong { label: String::from_str(label) });
        }
        self.write_u8(label_bytes.len() as u8);
        self.write_bytes(label_bytes);
        proof {
            assert(self.buf@ =~= old(self)@ + label_wire(label@));
        }
        Ok(())
    }
}

} // verus!

verus! {

/// The labels of a text with the first continuing `cur` are never none.
proof fn lemma_split_nonempty(cur: Seq<char>, s: Seq<char>)
    ensures
        split_dots_from(cur, s).len() > 0,
    decreases s.len(),
{
    if s.len() > 0 {
        if s[0] == '.' {
            lemma_split_nonempty(seq![], s.drop_first());
        } else {
            lemma_split_nonempty(cur.push(s[0]), s.drop_first());
        }
    }
}

/// The walk reads back, label by label, the labels written after `prefix`,
/// when the writer accepted all of them.
proof fn lemma_walk_reads_labels(
    prefix: Seq<u8>,
    ls: Seq<Seq<char>>,
    name: Seq<char>,
    rest: Seq<u8>,
    acc: Seq<Seq<u8>>,
)
    requires
        labels_wire(ls, name).1 is None,
    ensures
        name_walk(
            prefix + labels_wire(ls, name).0 + rest,
            NameWalk {
                pos: prefix.len() as int,
                first_pointer: None,
                resume: prefix.len() as int,
                visited: Set::empty(),
                labels: acc,
            },
        ) == Decoded::Value(
            acc + ls.map_values(|l: Seq<char>| encode_utf8(l)),
            (prefix.len() + labels_wire(ls, name).0.len()) as int,
        ),
    decreases ls.len(),
{
    let buf = prefix + labels_wire(ls, name).0 + rest;
    if ls.len() == 0 {
        assert(buf[prefix.len() as int] == 0);
        assert(acc + ls.map_values(|l: Seq<char>| encode_utf8(l)) =~= acc);
    } else {
        let l = ls[0];
        let e = encode_utf8(l);
        let tail = labels_wire(ls.drop_first(), name);
        assert(labels_wire(ls, name).0 == label_wire(l) + tail.0);
        assert(e.len() > 0) by {
            if e.len() == 0 {
                vstd::utf8::encode_utf8_decode_utf8(l);
                assert(vstd::utf8::decode_utf8(e) =~= Seq::<char>::empty());
            }
        }
        let p = prefix.len() as int;
        let next_prefix = prefix + label_wire(l);
        assert(buf =~= next_prefix + tail.0 + rest);
        assert(buf[p] == e.len() as u8);
        assert(buf.subrange(p + 1, p + 1 + e.len()) =~= e);
        lemma_walk_reads_labels(next_prefix, ls.drop_first(), name, rest, acc.push(e));
        assert(acc.push(e) + ls.drop_first().map_values(|l: Seq<char>| encode_utf8(l)) =~= acc
            + ls.map_values(|l: Seq<char>| encode_utf8(l)));
    }
}

/// The text a name the writer accepts is read back as: the root name as
/// `.`, any other name as the text of the labels written, each decoded and
/// lower-cased, joined by dots and ended by a dot.
pub open spec fn name_read_back(name: Seq<char>) -> Seq<char> {
    if strip_dot(name).len() == 0 {
        seq!['.']
    } else {
        name_text(split_dots(strip_dot(name)).map_values(|l: Seq<char>| encode_utf8(l)))
    }
}

/// A name the writer accepts is read back, by [`name_read_back`], from the
/// bytes written, whatever stands before and after them; the reader stops
/// right after the name.
pub proof fn lemma_name_round_trip(prefix: Seq<u8>, name: Seq<char>, rest: Seq<u8>)
    requires
        name_wire(name).1 is None,
    ensures
        decode_name(prefix + name_wire(name).0 + rest, prefix.len() as int) == Decoded::Value(
            name_read_back(name),
            (prefix.len() + name_wire(name).0.len()) as int,
        ),
{
    let n = strip_dot(name);
    let buf = prefix + name_wire(name).0 + rest;
    let p = prefix.len() as int;
    if n.len() == 0 {
        assert(buf[p] == 0);
    } else {
        let ls = split_dots(n);
        lemma_split_nonempty(seq![], n);
        lemma_walk_reads_labels(prefix, ls, n, rest, seq![]);
        assert(Seq::<Seq<u8>>::empty() + ls.map_values(|l: Seq<char>| encode_utf8(l)) =~= ls.map_values(
            |l: Seq<char>| encode_utf8(l),
        ));
        let l = ls[0];
        assert(labels_wire(ls, n).0 == label_wire(l) + labels_wire(ls.drop_first(), n).0);
        assert(encode_utf8(l).len() > 0) by {
            if encode_utf8(l).len() == 0 {
                vstd::utf8::encode_utf8_decode_utf8(l);
                assert(vstd::utf8::decode_utf8(encode_utf8(l)) =~= Seq::<char>::empty());
            }
        }
        assert(buf[p] == encode_utf8(l).len() as u8);
    }
}

/// Joining texts with a first one in front puts that one and a dot before
/// the rest joined.
proof fn lemma_join_front(a: Seq<char>, rest: Seq<Seq<char>>)
    requires
        rest.len() > 0,
    ensures
        join_dots(seq![a] + rest) == a + seq!['.'] + join_dots(rest),
    decreases rest.len(),
{
    let all = seq![a] + rest;
    assert(all.last() == rest.last());
    if rest.len() == 1 {
        assert(all.drop_last() =~= seq![a]);
        assert(join_dots(seq![a]) == a);
        assert(join_dots(rest) == rest[0]);
    } else {
        lemma_join_front(a, rest.drop_last());
        assert(all.drop_last() =~= seq![a] + rest.drop_last());
        let j = join_dots(rest.drop_last());
        assert(join_dots(rest) == j + seq!['.'] + rest.last());
        assert(a + seq!['.'] + j + seq!['.'] + rest.last() =~= a + seq!['.'] + (j + seq!['.'] + rest.last()));
    }
}

/// The labels of a text, joined again by dots, are the text.
proof fn lemma_join_split(cur: Seq<char>, s: Seq<char>)
    ensures
        join_dots(split_dots_from(cur, s)) == cur + s,
    decreases s.len(),
{
    if s.len() == 0 {
        assert(cur + s =~= cur);
    } else if s[0] == '.' {
        lemma_join_split(seq![], s.drop_first());
        lemma_split_nonempty(seq![], s.drop_first());
        lemma_join_front(cur, split_dots_from(seq![], s.drop_first()));
        assert(cur + seq!['.'] + (Seq::<char>::empty() + s.drop_first()) =~= cur + s);
    } else {
        lemma_join_split(cur.push(s[0]), s.drop_first());
        assert(cur.push(s[0]) + s.drop_first() =~= cur + s);
    }
}

/// The labels of an ASCII text are ASCII.
proof fn lemma_split_ascii(cur: Seq<char>, s: Seq<char>)
    requires
        is_ascii_chars(cur),
        is_ascii_chars(s),
    ensures
        forall|i: int| 0 <= i < split_dots_from(cur, s).len() ==> #[trigger] is_ascii_chars(split_dots_from(cur, s)[i]),
    decreases s.len(),
{
    if s.len() == 0 {
        assert(split_dots_from(cur, s) == seq![cur]);
        assert(seq![cur][0] == cur);
    } else {
        assert(is_ascii_chars(s.drop_first())) by {
            assert forall|i: int| 0 <= i < s.drop_first().len() implies '\0' <= #[trigger] s.drop_first()[i] <= '\u{7f}' by {
                assert(s.drop_first()[i] == s[i + 1]);
            }
        }
        if s[0] == '.' {
            lemma_split_ascii(seq![], s.drop_first());
            let tail = split_dots_from(seq![], s.drop_first());
            assert(split_dots_from(cur, s) == seq![cur] + tail);
            assert forall|i: int| 0 <= i < (seq![cur] + tail).len() implies #[trigger] is_ascii_chars((seq![cur] + tail)[i]) by {
                if i > 0 {
                    assert((seq![cur] + tail)[i] == tail[i - 1]);
                }
            }
        } else {
            assert(is_ascii_chars(cur.push(s[0]))) by {
                assert forall|i: int| 0 <= i < cur.push(s[0]).len() implies '\0' <= #[trigger] cur.push(s[0])[i] <= '\u{7f}' by {
                    if i < cur.len() {
                        assert(cur.push(s[0])[i] == cur[i]);
                    }
                }
            }
            lemma_split_ascii(cur.push(s[0]), s.drop_first());
            assert(split_dots_from(cur, s) == split_dots_from(cur.push(s[0]), s.drop_first()));
        }
    }
}

/// Lower-casing ASCII texts one by one and joining them is joining them and
/// lower-casing the whole.
proof fn lemma_join_lower(ls: Seq<Seq<char>>)
    ensures
        join_dots(ls.map_values(|l: Seq<char>| ascii_lower(l))) == ascii_lower(join_dots(ls)),
    decreases ls.len(),
{
    let m = ls.map_values(|l: Seq<char>| ascii_lower(l));
    if ls.len() == 0 {
        assert(ascii_lower(Seq::<char>::empty()) =~= Seq::<char>::empty());
    } else if ls.len() == 1 {
    } else {
        lemma_join_lower(ls.drop_last());
        assert(m.drop_last() =~= ls.drop_last().map_values(|l: Seq<char>| ascii_lower(l)));
        let a = join_dots(ls.drop_last());
        assert(ascii_lower(a + seq!['.'] + ls.last()) =~= ascii_lower(a) + seq!['.'] + ascii_lower(ls.last()));
    }
}

/// The text an ASCII name the writer accepts is read back as: the root name
/// `.` when nothing is left of it after one trailing dot is dropped;
/// otherwise the name without that dot, its ASCII letters lower-cased, with
/// one final dot.
pub open spec fn ascii_name_read_back(name: Seq<char>) -> Seq<char> {
    if strip_dot(name).len() == 0 {
        seq!['.']
    } else {
        ascii_lower(strip_dot(name)) + seq!['.']
    }
}

/// An ASCII name the writer accepts is read back from the bytes written,
/// whatever stands before and after them, as the name without its trailing
/// dot, lower-cased, with one final dot (the root name as `.`); the reader
/// stops right after the name.
pub proof fn lemma_ascii_name_round_trip(prefix: Seq<u8>, name: Seq<char>, rest: Seq<u8>)
    requires
        is_ascii_chars(name),
        name_wire(name).1 is None,
    ensures
        decode_name(prefix + name_wire(name).0 + rest, prefix.len() as int) == Decoded::Value(
            ascii_name_read_back(name),
            (prefix.len() + name_wire(name).0.len()) as int,
        ),
{
    lemma_name_round_trip(prefix, name, rest);
    let n = strip_dot(name);
    if n.len() > 0 {
        assert(is_ascii_chars(n)) by {
            assert forall|i: int| 0 <= i < n.len() implies '\0' <= #[trigger] n[i] <= '\u{7f}' by {
                assert(n[i] == name[i]);
            }
        }
        let ls = split_dots(n);
        lemma_split_ascii(seq![], n);
        lemma_join_split(seq![], n);
        assert(Seq::<char>::empty() + n =~= n);
        lemma_join_lower(ls);
        let texts = ls.map_values(|l: Seq<char>| encode_utf8(l)).map_values(|l: Seq<u8>| label_text(l));
        assert forall|i: int| 0 <= i < ls.len() implies #[trigger] texts[i] == ls.map_values(
            |l: Seq<char>| ascii_lower(l),
        )[i] by {
            let l = ls[i];
            vstd::utf8::encode_utf8_valid_utf8(l);
            vstd::utf8::encode_utf8_decode_utf8(l);
            assert(is_ascii_chars(l));
        }
        assert(texts =~= ls.map_values(|l: Seq<char>| ascii_lower(l)));
    }
}

/// Two bytes written for `v` read back as `v`.
pub proof fn lemma_be16_read_back(v: u16, buf: Seq<u8>, pos: int)
    requires
        0 <= pos,
        pos + 2 <= buf.len(),
        buf.subrange(pos, pos + 2) == be16_bytes(v),
    ensures
        decode_u16(buf, pos) == Decoded::Value(v, pos + 2),
{
    let b = buf.subrange(pos, pos + 2);
    assert(b[0] == (v / 256) as u8);
    assert(b[1] == (v % 256) as u8);
    assert(be16(b[0], b[1]) == v);
}

/// Four bytes written for `v` read back as `v`.
pub proof fn lemma_be32_read_back(v: u32, buf: Seq<u8>, pos: int)
    requires
        0 <= pos,
        pos + 4 <= buf.len(),
        buf.subrange(pos, pos + 4) == be32_bytes(v),
    ensures
        decode_u32(buf, pos) == Decoded::Value(v, pos + 4),
{
    let b = buf.subrange(pos, pos + 4);
    assert(b[0] == (v / 16777216) as u8);
    assert(b[1] == ((v / 65536) % 256) as u8);
    assert(b[2] == ((v / 256) % 256) as u8);
    assert(b[3] == (v % 256) as u8);
    assert(be32(b[0], b[1], b[2], b[3]) == v);
}

/// A name read in place ends after where it starts.
pub proof fn lemma_name_ends_after(buf: Seq<u8>, pos: int)
    ensures
        decode_name(buf, pos) matches Decoded::Value(_, q) ==> q > pos,
{
    lemma_walk_ends_after(buf, start_walk(pos), pos);
}

proof fn lemma_walk_ends_after(buf: Seq<u8>, w: NameWalk, base: int)
    requires
        w.first_pointer matches Some(p) ==> p >= base,
        w.first_pointer is None ==> w.pos >= base,
    ensures
        name_walk(buf, w) matches Decoded::Value(_, q) ==> q > base,
    decreases unvisited(buf.len() as int, w.visited), buf.len() - w.pos,
{
    if 0 <= w.pos < buf.len() {
        let b = buf[w.pos];
        if b != 0 && b >= 0xC0 && w.pos + 1 < buf.len() {
            let offset = (b - 0xC0) * 256 + buf[w.pos + 1];
            if offset < buf.len() && !w.visited.contains(offset) {
                lemma_visit_offset(buf.len() as int, w.visited, offset);
                lemma_walk_ends_after(
                    buf,
                    NameWalk {
                        pos: offset,
                        first_pointer: if w.first_pointer is None {
                            Some(w.pos)
                        } else {
                            w.first_pointer
                        },
                        resume: w.resume,
                        visited: w.visited.insert(offset),
                        labels: w.labels,
                    },
                    base,
                );
            }
        } else if b != 0 && b < 0xC0 && b <= 63 && w.pos + 1 + b <= buf.len() {
            let next = w.pos + 1 + b;
            lemma_walk_ends_after(
                buf,
                NameWalk {
                    pos: next,
                    first_pointer: w.first_pointer,
                    resume: if w.first_pointer is None {
                        next
                    } else {
                        w.resume
                    },
                    visited: w.visited,
                    labels: w.labels.push(buf.subrange(w.pos + 1, next)),
                },
                base,
            );
        }
    }
}

/// A label the writer accepts: not empty, and at most 63 bytes in UTF-8.
pub open spec fn label_accepted(label: Seq<char>) -> bool {
    label.len() > 0 && encode_utf8(label).len() <= 63
}

/// The labels are written without error exactly when each is accepted.
proof fn lemma_labels_accepted(ls: Seq<Seq<char>>, name: Seq<char>)
    ensures
        labels_wire(ls, name).1 is None <==> forall|i: int| 0 <= i < ls.len() ==> #[trigger] label_accepted(ls[i]),
    decreases ls.len(),
{
    if ls.len() > 0 {
        lemma_labels_accepted(ls.drop_first(), name);
        if forall|i: int| 0 <= i < ls.len() ==> #[trigger] label_accepted(ls[i]) {
            assert forall|i: int| 0 <= i < ls.drop_first().len() implies #[trigger] label_accepted(
                ls.drop_first()[i],
            ) by {
                assert(label_accepted(ls[i + 1]));
            }
        }
        if label_accepted(ls[0]) && labels_wire(ls.drop_first(), name).1 is None {
            assert forall|i: int| 0 <= i < ls.len() implies #[trigger] label_accepted(ls[i]) by {
                if i > 0 {
                    assert(ls[i] == ls.drop_first()[i - 1]);
                }
            }
        }
    }
}

/// Writing a name succeeds exactly when, with one trailing dot dropped, it
/// is empty, or it has at most 255 bytes in UTF-8 and every label between
/// its dots is accepted: not empty and at most 63 bytes.
pub proof fn lemma_name_accepted(name: Seq<char>)
    ensures
        name_wire(name).1 is None <==> ({
            let n = strip_dot(name);
            ||| n.len() == 0
            ||| encode_utf8(n).len() <= 255 && forall|i: int|
                0 <= i < split_dots(n).len() ==> #[trigger] label_accepted(split_dots(n)[i])
        }),
{
    let n = strip_dot(name);
    lemma_labels_accepted(split_dots(n), n);
}

/// The errors a name can be refused with when it is read: a read past the
/// end of the bytes, a pointer to an offset outside them, a pointer to an
/// offset already visited, or a label longer than 63 bytes.
pub open spec fn name_error(e: ErrorView, len: int) -> bool {
    ||| e is Protocol
    ||| e matches ErrorView::InvalidPointer { offset, len: l } && l == len && offset >= len
    ||| e is PointerLoop
    ||| e is LabelTooLong
}

/// A walk from offsets within the buffer only visits offsets within it,
/// keeps those it has visited, and fails only with a name error.
proof fn lemma_walk_outcomes(buf: Seq<u8>, w: NameWalk)
    requires
        buf.len() <= usize::MAX,
        forall|x: int| #[trigger] w.visited.contains(x) ==> 0 <= x < buf.len(),
    ensures
        forall|x: int| #[trigger] walk_visited(buf, w).contains(x) ==> 0 <= x < buf.len(),
        w.visited.subset_of(walk_visited(buf, w)),
        name_walk(buf, w) matches Decoded::Error(e, _) ==> name_error(e, buf.len() as int),
    decreases unvisited(buf.len() as int, w.visited), buf.len() - w.pos,
{
    if 0 <= w.pos < buf.len() {
        let b = buf[w.pos];
        if b >= 0xC0 && w.pos + 1 < buf.len() {
            let offset = (b - 0xC0) * 256 + buf[w.pos + 1];
            if offset < buf.len() && !w.visited.contains(offset) {
                lemma_visit_offset(buf.len() as int, w.visited, offset);
                lemma_walk_outcomes(
                    buf,
                    NameWalk {
                        pos: offset,
                        first_pointer: if w.first_pointer is None {
                            Some(w.pos)
                        } else {
                            w.first_pointer
                        },
                        resume: w.resume,
                        visited: w.visited.insert(offset),
                        labels: w.labels,
                    },
                );
            }
        } else if b != 0 && b < 0xC0 && b <= 63 && w.pos + 1 + b <= buf.len() {
            let next = w.pos + 1 + b;
            lemma_walk_outcomes(
                buf,
                NameWalk {
                    pos: next,
                    first_pointer: w.first_pointer,
                    resume: if w.first_pointer is None {
                        next
                    } else {
                        w.resume
                    },
                    visited: w.visited,
                    labels: w.labels.push(buf.subrange(w.pos + 1, next)),
                },
            );
        }
    }
}

/// Reading a name at any offset of any buffer ends: the walk follows at
/// most as many pointers as the buffer has bytes, each to a different
/// offset within it, and a name that is refused is refused with a name
/// error.
pub proof fn lemma_name_outcomes(buf: Seq<u8>, pos: int)
    requires
        buf.len() <= usize::MAX,
    ensures
        forall|x: int| #[trigger] walk_visited(buf, start_walk(pos)).contains(x) ==> 0 <= x < buf.len(),
        walk_visited(buf, start_walk(pos)).len() <= buf.len(),
        decode_name(buf, pos) matches Decoded::Error(e, _) ==> name_error(e, buf.len() as int),
{
    lemma_walk_outcomes(buf, start_walk(pos));
    let v = walk_visited(buf, start_walk(pos));
    let all = set_int_range(0, buf.len() as int);
    vstd::set_lib::lemma_int_range(0, buf.len() as int);
    assert(v.subset_of(all));
    vstd::set_lib::lemma_len_subset(v, all);
}

/// The number that bytes spell in base 256, the first byte most
/// significant.
pub open spec fn be_number(bytes: Seq<u8>) -> nat
    decreases bytes.len(),
{
    if bytes.len() == 0 {
        0
    } else {
        be_number(bytes.drop_last()) * 256 + bytes.last() as nat
    }
}

/// Two more bytes after `a` multiply its number by 2^16 and add theirs.
pub proof fn lemma_be_number_two(a: Seq<u8>, b: Seq<u8>)
    requires
        b.len() == 2,
    ensures
        be_number(a + b) == be_number(a) * 0x1_0000 + b[0] * 256 + b[1],
{
    let s1 = a.push(b[0]);
    assert((a + b).drop_last() =~= s1);
    assert(s1.drop_last() =~= a);
    let x = be_number(a);
    let y1 = be_number(s1);
    assert(y1 == x * 256 + b[0]);
    assert(be_number(a + b) == y1 * 256 + b[1]);
    assert((x * 256 + b[0]) * 256 + b[1] == x * 0x1_0000 + b[0] * 256 + b[1]) by (nonlinear_arith);
}

/// Four more bytes after `a` multiply its number by 2^32 and add theirs.
pub proof fn lemma_be_number_four(a: Seq<u8>, b: Seq<u8>)
    requires
        b.len() == 4,
    ensures
        be_number(a + b) == be_number(a) * 0x1_0000_0000 + be32(b[0], b[1], b[2], b[3]),
{
    let s3 = a + b.take(3);
    let s2 = a + b.take(2);
    let s1 = a + b.take(1);
    assert((a + b).drop_last() =~= s3);
    assert(s3.drop_last() =~= s2);
    assert(s2.drop_last() =~= s1);
    assert(s1.drop_last() =~= a);
    assert((a + b).last() == b[3]);
    assert(s3.last() == b[2]);
    assert(s2.last() == b[1]);
    assert(s1.last() == b[0]);
    let x = be_number(a);
    let y1 = be_number(s1);
    let y2 = be_number(s2);
    let y3 = be_number(s3);
    assert(y1 == x * 256 + b[0]);
    assert(y2 == y1 * 256 + b[1]);
    assert(y3 == y2 * 256 + b[2]);
    assert(be_number(a + b) == y3 * 256 + b[3]);
    assert((((x * 256 + b[0]) * 256 + b[1]) * 256 + b[2]) * 256 + b[3] == x * 0x1_0000_0000 + b[0]
        * 16777216 + b[1] * 65536 + b[2] * 256 + b[3]) by (nonlinear_arith);
}

/// The number of two bytes.
pub proof fn lemma_be_number_of_two(b: Seq<u8>)
    requires
        b.len() == 2,
    ensures
        be_number(b) == b[0] * 256 + b[1],
{
    lemma_be_number_two(seq![], b);
    assert(Seq::<u8>::empty() + b =~= b);
}

/// The number of four bytes.
pub proof fn lemma_be_number_of_four(b: Seq<u8>)
    requires
        b.len() == 4,
    ensures
        be_number(b) == be32(b[0], b[1], b[2], b[3]),
{
    lemma_be_number_four(seq![], b);
    assert(Seq::<u8>::empty() + b =~= b);
}

/// Reading integers: a read succeeds exactly when the buffer holds enough
/// bytes at the position, and then gives the big-endian number of those
/// bytes, two's complement for the signed read, and moves past them.
pub proof fn lemma_integer_reads(buf: Seq<u8>, pos: int)
    requires
        0 <= pos,
    ensures
        decode_u8(buf, pos) is Value <==> pos + 1 <= buf.len(),
        decode_u16(buf, pos) is Value <==> pos + 2 <= buf.len(),
        decode_u32(buf, pos) is Value <==> pos + 4 <= buf.len(),
        decode_i32(buf, pos) is Value <==> pos + 4 <= buf.len(),
        decode_u8(buf, pos) matches Decoded::Value(v, p) ==> v == buf[pos] && p == pos + 1,
        decode_u16(buf, pos) matches Decoded::Value(v, p) ==> v == be_number(buf.subrange(pos, pos + 2))
            && p == pos + 2,
        decode_u32(buf, pos) matches Decoded::Value(v, p) ==> v == be_number(buf.subrange(pos, pos + 4))
            && p == pos + 4,
        decode_i32(buf, pos) matches Decoded::Value(v, p) ==> p == pos + 4 && v == (if be_number(
            buf.subrange(pos, pos + 4),
        ) < 0x8000_0000 {
            be_number(buf.subrange(pos, pos + 4)) as int
        } else {
            be_number(buf.subrange(pos, pos + 4)) - 0x1_0000_0000
        }),
{
    if pos + 2 <= buf.len() {
        lemma_be_number_of_two(buf.subrange(pos, pos + 2));
    }
    if pos + 4 <= buf.len() {
        lemma_be_number_of_four(buf.subrange(pos, pos + 4));
    }
}

} // verus!
