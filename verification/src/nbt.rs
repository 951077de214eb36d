//! The NBT (Named Binary Tag) tree model and its recursive-descent decoder.
//!
//! An NBT stream is a self-describing binary tree: every tag starts with a
//! one-byte type id, carries a length-prefixed UTF-8 name in named contexts,
//! and then a payload whose layout the type id determines. Tag id 0 (End)
//! carries neither name nor payload and only terminates a Compound.
//!
//! The decoder is specified twice: once as a family of spec functions over
//! `Seq<u8>` (`spec_tag`, `spec_payload`, ...) that are the mathematical
//! definition of the format, and once as executable functions whose contracts
//! say they return exactly what the spec functions denote.

use vstd::prelude::*;

use crate::bytes::{as_i16, as_i32, as_i64, as_i8, be16, be32, be64};
use crate::bytes::{read_data, read_u16, read_u32, read_u64, to_i16, to_i32, to_i64, to_i8};
use crate::NbtError;

verus! {

/// Maximum nesting depth of List/Compound values the decoder accepts; the
/// format itself imposes no limit, so the decoder must, to bound recursion.
pub const MAX_DEPTH: usize = 128;

/// One decoded NBT value; `List` and `Compound` nest recursively.
///
/// `Float` and `Double` hold the raw big-endian IEEE-754 bits of the payload;
/// the decoder never interprets them as numbers.
/// `Compound` keeps its entries in insertion order with unique names; a
/// duplicate name in the stream overwrites the earlier value in place.
#[derive(Debug, PartialEq)]
pub enum NbtValue {
    Byte(i8),
    Short(i16),
    Int(i32),
    Long(i64),
    Float(u32),
    Double(u64),
    String(String),
    ByteArray(Vec<i8>),
    IntArray(Vec<i32>),
    LongArray(Vec<i64>),
    List(Vec<NbtValue>),
    Compound(Vec<(String, NbtValue)>),
}

/// A decoded named tag. Both fields `None` at once is the End sentinel; a
/// real tag always has `data = Some(..)`, and `name = Some(..)` exactly when
/// it was decoded in a named context.
#[derive(Debug, PartialEq)]
pub struct NbtTag {
    pub name: Option<String>,
    pub data: Option<NbtValue>,
}

/// Mathematical model of an NBT value: sequences in place of vectors,
/// character sequences in place of strings.
pub ghost enum SpecNbt {
    Byte(i8),
    Short(i16),
    Int(i32),
    Long(i64),
    Float(u32),
    Double(u64),
    String(Seq<char>),
    ByteArray(Seq<i8>),
    IntArray(Seq<i32>),
    LongArray(Seq<i64>),
    List(Seq<SpecNbt>),
    Compound(Seq<(Seq<char>, SpecNbt)>),
}

/// Mathematical model of a named tag.
pub ghost struct SpecTag {
    pub name: Option<Seq<char>>,
    pub data: Option<SpecNbt>,
}

impl NbtValue {
    /// The mathematical value this tree represents.
    pub open spec fn dv(self) -> SpecNbt
        decreases self, 0int,
    {
        match self {
            NbtValue::Byte(x) => SpecNbt::Byte(x),
            NbtValue::Short(x) => SpecNbt::Short(x),
            NbtValue::Int(x) => SpecNbt::Int(x),
            NbtValue::Long(x) => SpecNbt::Long(x),
            NbtValue::Float(x) => SpecNbt::Float(x),
            NbtValue::Double(x) => SpecNbt::Double(x),
            NbtValue::String(s) => SpecNbt::String(s@),
            NbtValue::ByteArray(v) => SpecNbt::ByteArray(v@),
            NbtValue::IntArray(v) => SpecNbt::IntArray(v@),
            NbtValue::LongArray(v) => SpecNbt::LongArray(v@),
            NbtValue::List(v) => SpecNbt::List(dv_seq(v@)),
            NbtValue::Compound(v) => SpecNbt::Compound(dv_pairs(v@)),
        }
    }
}

/// The mathematical values a sequence of trees represents, elementwise.
pub open spec fn dv_seq(s: Seq<NbtValue>) -> Seq<SpecNbt>
    decreases s, 1int,
{
    if s.len() == 0 {
        seq![]
    } else {
        seq![s[0].dv()] + dv_seq(s.subrange(1, s.len() as int))
    }
}

/// The mathematical pairs a sequence of named entries represents.
pub open spec fn dv_pairs(s: Seq<(String, NbtValue)>) -> Seq<(Seq<char>, SpecNbt)>
    decreases s, 1int,
{
    if s.len() == 0 {
        seq![]
    } else {
        seq![(s[0].0@, s[0].1.dv())] + dv_pairs(s.subrange(1, s.len() as int))
    }
}

impl NbtTag {
    /// The mathematical tag this value represents.
    pub open spec fn dv(self) -> SpecTag {
        SpecTag {
            name: match self.name {
                Some(n) => Some(n@),
                None => None,
            },
            data: match self.data {
                Some(v) => Some(v.dv()),
                None => None,
            },
        }
    }
}

/// What `String::from_utf8` decodes a byte sequence to: `None` where the
/// bytes are not valid UTF-8, otherwise the decoded text.
pub uninterp spec fn utf8_decode(bytes: Seq<u8>) -> Option<Seq<char>>;

/// Relies on `String::from_utf8`: whether bytes are valid UTF-8, and what
/// text they decode to, depend on the bytes alone.
#[verifier::external_body]
fn bytes_to_string(data: Vec<u8>) -> (r: Result<String, NbtError>)
    ensures
        match r {
            Ok(s) => utf8_decode(data@) == Some(s@),
            Err(e) => utf8_decode(data@) is None && e == NbtError::TextDecodeError,
        },
{
    match String::from_utf8(data) {
        Ok(s) => Ok(s),
        Err(_) => Err(NbtError::TextDecodeError),
    }
}

/// Replaces the first entry named `name` with `(name, v)`, or appends one.
pub open spec fn insert_pair(
    entries: Seq<(Seq<char>, SpecNbt)>,
    name: Seq<char>,
    v: SpecNbt,
) -> Seq<(Seq<char>, SpecNbt)>
    decreases entries.len(),
{
    if entries.len() == 0 {
        seq![(name, v)]
    } else if entries[0].0 == name {
        seq![(name, v)] + entries.drop_first()
    } else {
        seq![entries[0]] + insert_pair(entries.drop_first(), name, v)
    }
}

/// The compound a sequence of raw (name, value) pairs denotes: pairs are
/// inserted left to right, and a repeated name overwrites the earlier value
/// in place (last write wins).
pub open spec fn compound_of(pairs: Seq<(Seq<char>, SpecNbt)>) -> Seq<(Seq<char>, SpecNbt)>
    decreases pairs.len(),
{
    if pairs.len() == 0 {
        seq![]
    } else {
        insert_pair(compound_of(pairs.drop_last()), pairs.last().0, pairs.last().1)
    }
}

/// Decodes the payload of a tag of type `t` at `pos`. Returns the value and
/// the position of the first byte after the payload.
pub open spec fn spec_payload(s: Seq<u8>, pos: int, t: u8, depth: nat) -> Result<
    (SpecNbt, int),
    NbtError,
>
    decreases depth, s.len() - pos, 0int, 0int,
{
    if pos < 0 || pos > s.len() {
        Err(NbtError::TruncatedChunk)
    } else if t == 1 {
        if pos + 1 <= s.len() {
            Ok((SpecNbt::Byte(as_i8(s[pos] as nat) as i8), pos + 1))
        } else {
            Err(NbtError::TruncatedChunk)
        }
    } else if t == 2 {
        if pos + 2 <= s.len() {
            Ok((SpecNbt::Short(as_i16(be16(s, pos)) as i16), pos + 2))
        } else {
            Err(NbtError::TruncatedChunk)
        }
    } else if t == 3 {
        if pos + 4 <= s.len() {
            Ok((SpecNbt::Int(as_i32(be32(s, pos)) as i32), pos + 4))
        } else {
            Err(NbtError::TruncatedChunk)
        }
    } else if t == 4 {
        if pos + 8 <= s.len() {
            Ok((SpecNbt::Long(as_i64(be64(s, pos)) as i64), pos + 8))
        } else {
            Err(NbtError::TruncatedChunk)
        }
    } else if t == 5 {
        if pos + 4 <= s.len() {
            Ok((SpecNbt::Float(be32(s, pos) as u32), pos + 4))
        } else {
            Err(NbtError::TruncatedChunk)
        }
    } else if t == 6 {
        if pos + 8 <= s.len() {
            Ok((SpecNbt::Double(be64(s, pos) as u64), pos + 8))
        } else {
            Err(NbtError::TruncatedChunk)
        }
    } else if t == 7 {
        if pos + 4 > s.len() {
            Err(NbtError::TruncatedChunk)
        } else {
            let count = as_i32(be32(s, pos));
            if count < 0 || pos + 4 + count > s.len() {
                Err(NbtError::InvalidLength)
            } else {
                Ok(
                    (
                        SpecNbt::ByteArray(
                            Seq::new(count as nat, |i: int| as_i8(s[pos + 4 + i] as nat) as i8),
                        ),
                        pos + 4 + count,
                    ),
                )
            }
        }
    } else if t == 8 {
        if pos + 2 > s.len() {
            Err(NbtError::TruncatedChunk)
        } else {
            let slen = be16(s, pos) as int;
            if pos + 2 + slen > s.len() {
                Err(NbtError::InvalidLength)
            } else {
                match utf8_decode(s.subrange(pos + 2, pos + 2 + slen)) {
                    None => Err(NbtError::TextDecodeError),
                    Some(txt) => Ok((SpecNbt::String(txt), pos + 2 + slen)),
                }
            }
        }
    } else if t == 9 {
        if pos + 5 > s.len() {
            Err(NbtError::TruncatedChunk)
        } else {
            let elem = s[pos];
            let count = as_i32(be32(s, pos + 1));
            if count < 0 {
                Err(NbtError::InvalidLength)
            } else if depth == 0 {
                Err(NbtError::DepthLimitExceeded)
            } else {
                match spec_list_elems(s, pos + 5, elem, count, (depth - 1) as nat) {
                    Err(e) => Err(e),
                    Ok((vs, p)) => Ok((SpecNbt::List(vs), p)),
                }
            }
        }
    } else if t == 10 {
        if depth == 0 {
            Err(NbtError::DepthLimitExceeded)
        } else {
            match spec_compound_items(s, pos, (depth - 1) as nat) {
                Err(e) => Err(e),
                Ok((pairs, p)) => Ok((SpecNbt::Compound(compound_of(pairs)), p)),
            }
        }
    } else if t == 11 {
        if pos + 4 > s.len() {
            Err(NbtError::TruncatedChunk)
        } else {
            let count = as_i32(be32(s, pos));
            if count < 0 || pos + 4 + 4 * count > s.len() {
                Err(NbtError::InvalidLength)
            } else {
                Ok(
                    (
                        SpecNbt::IntArray(
                            Seq::new(count as nat, |i: int| as_i32(be32(s, pos + 4 + 4 * i)) as i32),
                        ),
                        pos + 4 + 4 * count,
                    ),
                )
            }
        }
    } else if t == 12 {
        if pos + 4 > s.len() {
            Err(NbtError::TruncatedChunk)
        } else {
            let count = as_i32(be32(s, pos));
            if count < 0 || pos + 4 + 8 * count > s.len() {
                Err(NbtError::InvalidLength)
            } else {
                Ok(
                    (
                        SpecNbt::LongArray(
                            Seq::new(count as nat, |i: int| as_i64(be64(s, pos + 4 + 8 * i)) as i64),
                        ),
                        pos + 4 + 8 * count,
                    ),
                )
            }
        }
    } else {
        Err(NbtError::InvalidTagType(t))
    }
}

/// Decodes `count` unnamed list elements of type `elem` starting at `pos`.
pub open spec fn spec_list_elems(s: Seq<u8>, pos: int, elem: u8, count: int, depth: nat) -> Result<
    (Seq<SpecNbt>, int),
    NbtError,
>
    decreases depth, s.len() - pos, count, 1int,
{
    if pos < 0 || pos > s.len() {
        Err(NbtError::TruncatedChunk)
    } else if count <= 0 {
        Ok((seq![], pos))
    } else {
        match spec_payload(s, pos, elem, depth) {
            Err(e) => Err(e),
            Ok((v, p)) => if !(pos < p <= s.len()) {
                Err(NbtError::TruncatedChunk)
            } else {
                match spec_list_elems(s, p, elem, count - 1, depth) {
                    Err(e) => Err(e),
                    Ok((rest, p2)) => Ok((seq![v] + rest, p2)),
                }
            },
        }
    }
}

/// Decodes one named tag at `pos`: a type byte, then (unless the type is
/// End) a length-prefixed name and the payload.
pub open spec fn spec_tag(s: Seq<u8>, pos: int, depth: nat) -> Result<(SpecTag, int), NbtError>
    decreases depth, s.len() - pos, 0int, 2int,
{
    if pos < 0 || pos >= s.len() {
        Err(NbtError::TruncatedChunk)
    } else {
        let t = s[pos];
        if t == 0 {
            Ok((SpecTag { name: None, data: None }, pos + 1))
        } else if t > 12 {
            Err(NbtError::InvalidTagType(t))
        } else if pos + 3 > s.len() {
            Err(NbtError::TruncatedChunk)
        } else {
            let nlen = be16(s, pos + 1) as int;
            if pos + 3 + nlen > s.len() {
                Err(NbtError::InvalidLength)
            } else {
                match utf8_decode(s.subrange(pos + 3, pos + 3 + nlen)) {
                    None => Err(NbtError::TextDecodeError),
                    Some(name) => match spec_payload(s, pos + 3 + nlen, t, depth) {
                        Err(e) => Err(e),
                        Ok((v, p)) => Ok((SpecTag { name: Some(name), data: Some(v) }, p)),
                    },
                }
            }
        }
    }
}

/// Decodes a compound's children at `pos`: named tags up to and including
/// the End sentinel. Returns the raw (name, value) pairs in stream order.
pub open spec fn spec_compound_items(s: Seq<u8>, pos: int, depth: nat) -> Result<
    (Seq<(Seq<char>, SpecNbt)>, int),
    NbtError,
>
    decreases depth, s.len() - pos, 0int, 3int,
{
    if pos < 0 || pos > s.len() {
        Err(NbtError::TruncatedChunk)
    } else if pos == s.len() {
        Err(NbtError::MissingTerminator)
    } else {
        match spec_tag(s, pos, depth) {
            Err(e) => Err(e),
            Ok((tag, p)) => match (tag.name, tag.data) {
                (Option::None, Option::None) => Ok((seq![], p)),
                (Option::Some(n), Option::Some(v)) => if !(pos < p <= s.len()) {
                    Err(NbtError::TruncatedChunk)
                } else {
                    match spec_compound_items(s, p, depth) {
                        Err(e) => Err(e),
                        Ok((rest, p2)) => Ok((seq![(n, v)] + rest, p2)),
                    }
                },
                _ => Err(NbtError::InvalidTagType(0)),
            },
        }
    }
}

/// What decoding a whole NBT buffer from its start yields: the root named
/// tag; bytes after the root tag are ignored.
pub open spec fn spec_read_nbt(s: Seq<u8>) -> Result<SpecTag, NbtError> {
    match spec_tag(s, 0, MAX_DEPTH as nat) {
        Ok((tag, _)) => Ok(tag),
        Err(e) => Err(e),
    }
}

/// A compound whose byte stream is exhausted before an End sentinel was
/// decoded fails with `MissingTerminator`: when the child decoder stands at
/// the end of the buffer, that error is returned rather than any read past
/// the end.
pub proof fn lemma_compound_missing_terminator(s: Seq<u8>, pos: int, depth: nat)
    requires
        0 <= pos,
        pos == s.len(),
    ensures
        spec_compound_items(s, pos, depth) == Err::<
            (Seq<(Seq<char>, SpecNbt)>, int),
            NbtError,
        >(NbtError::MissingTerminator),
{
}

/// The decoder never reads past its buffer: a successfully decoded payload
/// ends at a position after its start and at or before the buffer's end.
pub proof fn lemma_payload_in_bounds(s: Seq<u8>, pos: int, t: u8, depth: nat)
    ensures
        spec_payload(s, pos, t, depth) matches Ok((v, p)) ==> pos < p <= s.len(),
    decreases depth, s.len() - pos, 0int, 0int,
{
    if 0 <= pos <= s.len() {
        if t == 9 && pos + 5 <= s.len() {
            let elem = s[pos];
            let count = as_i32(be32(s, pos + 1));
            if count >= 0 && depth > 0 {
                lemma_list_in_bounds(s, pos + 5, elem, count, (depth - 1) as nat);
            }
        } else if t == 10 && depth > 0 {
            lemma_compound_in_bounds(s, pos, (depth - 1) as nat);
        }
    }
}

/// Successfully decoded list elements end at or after their start and at or
/// before the buffer's end.
proof fn lemma_list_in_bounds(s: Seq<u8>, pos: int, elem: u8, count: int, depth: nat)
    ensures
        spec_list_elems(s, pos, elem, count, depth) matches Ok((vs, p)) ==> pos <= p <= s.len(),
    decreases depth, s.len() - pos, count, 1int,
{
    if 0 <= pos <= s.len() && count > 0 {
        lemma_payload_in_bounds(s, pos, elem, depth);
        match spec_payload(s, pos, elem, depth) {
            Ok((v, p)) => {
                if pos < p <= s.len() {
                    lemma_list_in_bounds(s, p, elem, count - 1, depth);
                }
            },
            Err(e) => {},
        }
    }
}

/// The decoder never reads past its buffer: a successfully decoded named tag
/// ends at a position after its start and at or before the buffer's end.
pub proof fn lemma_tag_in_bounds(s: Seq<u8>, pos: int, depth: nat)
    ensures
        spec_tag(s, pos, depth) matches Ok((tag, p)) ==> pos < p <= s.len(),
    decreases depth, s.len() - pos, 0int, 2int,
{
    if 0 <= pos < s.len() {
        let t = s[pos];
        if 1 <= t <= 12 && pos + 3 <= s.len() {
            let nlen = be16(s, pos + 1) as int;
            if pos + 3 + nlen <= s.len() {
                lemma_payload_in_bounds(s, pos + 3 + nlen, t, depth);
            }
        }
    }
}

/// Successfully decoded compound children, End sentinel included, end at a
/// position after their start and at or before the buffer's end.
proof fn lemma_compound_in_bounds(s: Seq<u8>, pos: int, depth: nat)
    ensures
        spec_compound_items(s, pos, depth) matches Ok((pairs, p)) ==> pos < p <= s.len(),
    decreases depth, s.len() - pos, 0int, 3int,
{
    if 0 <= pos < s.len() {
        lemma_tag_in_bounds(s, pos, depth);
        match spec_tag(s, pos, depth) {
            Ok((tag, p)) => {
                if pos < p <= s.len() {
                    lemma_compound_in_bounds(s, p, depth);
                }
            },
            Err(e) => {},
        }
    }
}

/// Decoding is deterministic: any two decodes of the same byte buffer yield
/// the same result, since `read_nbt` pins its result to a function of the
/// buffer alone.
pub proof fn lemma_read_nbt_deterministic(
    s: Seq<u8>,
    r1: Result<SpecTag, NbtError>,
    r2: Result<SpecTag, NbtError>,
)
    requires
        r1 == spec_read_nbt(s),
        r2 == spec_read_nbt(s),
    ensures
        r1 == r2,
{
}

/// `dv_seq` maps a sequence elementwise.
pub proof fn lemma_dv_seq_elems(s: Seq<NbtValue>)
    ensures
        dv_seq(s).len() == s.len(),
        forall|i: int| 0 <= i < s.len() ==> #[trigger] dv_seq(s)[i] == s[i].dv(),
    decreases s.len(),
{
    if s.len() > 0 {
        lemma_dv_seq_elems(s.subrange(1, s.len() as int));
    }
}

/// `dv_pairs` maps a sequence elementwise.
pub proof fn lemma_dv_pairs_elems(s: Seq<(String, NbtValue)>)
    ensures
        dv_pairs(s).len() == s.len(),
        forall|i: int| 0 <= i < s.len() ==> #[trigger] dv_pairs(s)[i] == (s[i].0@, s[i].1.dv()),
    decreases s.len(),
{
    if s.len() > 0 {
        lemma_dv_pairs_elems(s.subrange(1, s.len() as int));
    }
}

/// Inserting a name that sits at index `i`, with no earlier occurrence,
/// overwrites that entry in place.
proof fn lemma_insert_pair_found(s: Seq<(Seq<char>, SpecNbt)>, nm: Seq<char>, v: SpecNbt, i: int)
    requires
        0 <= i < s.len(),
        s[i].0 == nm,
        forall|j: int| 0 <= j < i ==> s[j].0 != nm,
    ensures
        insert_pair(s, nm, v) == s.update(i, (nm, v)),
    decreases i,
{
    if i == 0 {
        assert(insert_pair(s, nm, v) =~= s.update(0, (nm, v)));
    } else {
        lemma_insert_pair_found(s.drop_first(), nm, v, i - 1);
        assert(insert_pair(s, nm, v) =~= s.update(i, (nm, v)));
    }
}

/// Inserting a name that does not occur appends the pair.
proof fn lemma_insert_pair_absent(s: Seq<(Seq<char>, SpecNbt)>, nm: Seq<char>, v: SpecNbt)
    requires
        forall|j: int| 0 <= j < s.len() ==> s[j].0 != nm,
    ensures
        insert_pair(s, nm, v) == s.push((nm, v)),
    decreases s.len(),
{
    if s.len() > 0 {
        lemma_insert_pair_absent(s.drop_first(), nm, v);
        assert(insert_pair(s, nm, v) =~= s.push((nm, v)));
    } else {
        assert(insert_pair(s, nm, v) =~= s.push((nm, v)));
    }
}

/// A decoded named tag either is the End sentinel (no name, no data) or has
/// both a name and data.
pub proof fn lemma_spec_tag_shape(s: Seq<u8>, pos: int, depth: nat)
    ensures
        spec_tag(s, pos, depth) matches Ok((tag, p)) ==> (tag.name is Some <==> tag.data
            is Some),
{
}

/// Puts `(name, v)` into the entry list: overwrites the entry with that name
/// in place, or appends one.
#[verifier::loop_isolation(false)]
fn compound_insert(entries: &mut Vec<(String, NbtValue)>, name: String, v: NbtValue)
    ensures
        dv_pairs(final(entries)@) == insert_pair(dv_pairs(old(entries)@), name@, v.dv()),
{
    let n = entries.len();
    let mut i: usize = 0;
    while i < n
        invariant
            i <= n,
            entries@ == old(entries)@,
            n == entries@.len(),
            forall|j: int| 0 <= j < i ==> entries@[j].0@ != name@,
        decreases n - i,
    {
        if entries[i].0 == name {
            let _ = entries.remove(i);
            entries.insert(i, (name, v));
            proof {
                lemma_dv_pairs_elems(old(entries)@);
                lemma_dv_pairs_elems(entries@);
                assert(entries@ =~= old(entries)@.update(i as int, (name, v)));
                lemma_insert_pair_found(dv_pairs(old(entries)@), name@, v.dv(), i as int);
                assert(dv_pairs(entries@) =~= dv_pairs(old(entries)@).update(
                    i as int,
                    (name@, v.dv()),
                ));
            }
            return ;
        }
        i = i + 1;
    }
    entries.push((name, v));
    proof {
        lemma_dv_pairs_elems(old(entries)@);
        lemma_dv_pairs_elems(entries@);
        lemma_insert_pair_absent(dv_pairs(old(entries)@), name@, v.dv());
        assert(dv_pairs(entries@) =~= dv_pairs(old(entries)@).push((name@, v.dv())));
    }
}

/// Decodes the payload of a tag of type `t` at `pos`, exactly as
/// `spec_payload` describes; on success the returned position is the first
/// byte after the payload.
#[verifier::loop_isolation(false)]
pub fn decode_payload(bytes: &Vec<u8>, pos: usize, t: u8, depth: usize) -> (r: Result<
    (NbtValue, usize),
    NbtError,
>)
    requires
        pos <= bytes@.len(),
    ensures
        (match r {
            Ok((v, p)) => spec_payload(bytes@, pos as int, t, depth as nat) == Ok::<
                (SpecNbt, int),
                NbtError,
            >((v.dv(), p as int)) && pos < p <= bytes@.len(),
            Err(e) => spec_payload(bytes@, pos as int, t, depth as nat) == Err::<
                (SpecNbt, int),
                NbtError,
            >(e),
        }),
    decreases depth, bytes@.len() - pos, 0int,
{
    let n: usize = bytes.len();
    if t == 1 {
        if n - pos < 1 {
            return Err(NbtError::TruncatedChunk);
        }
        Ok((NbtValue::Byte(to_i8(bytes[pos])), pos + 1))
    } else if t == 2 {
        if n - pos < 2 {
            return Err(NbtError::TruncatedChunk);
        }
        Ok((NbtValue::Short(to_i16(read_u16(bytes, pos))), pos + 2))
    } else if t == 3 {
        if n - pos < 4 {
            return Err(NbtError::TruncatedChunk);
        }
        Ok((NbtValue::Int(to_i32(read_u32(bytes, pos))), pos + 4))
    } else if t == 4 {
        if n - pos < 8 {
            return Err(NbtError::TruncatedChunk);
        }
        Ok((NbtValue::Long(to_i64(read_u64(bytes, pos))), pos + 8))
    } else if t == 5 {
        if n - pos < 4 {
            return Err(NbtError::TruncatedChunk);
        }
        Ok((NbtValue::Float(read_u32(bytes, pos)), pos + 4))
    } else if t == 6 {
        if n - pos < 8 {
            return Err(NbtError::TruncatedChunk);
        }
        Ok((NbtValue::Double(read_u64(bytes, pos)), pos + 8))
    } else if t == 7 {
        if n - pos < 4 {
            return Err(NbtError::TruncatedChunk);
        }
        let cnt_i = to_i32(read_u32(bytes, pos));
        if cnt_i < 0 {
            return Err(NbtError::InvalidLength);
        }
        let cnt = cnt_i as usize;
        if n - (pos + 4) < cnt {
            return Err(NbtError::InvalidLength);
        }
        let mut arr: Vec<i8> = Vec::new();
        let mut i: usize = 0;
        while i < cnt
            invariant
                i <= cnt,
                arr@.len() == i,
                forall|j: int| 0 <= j < i ==> arr@[j] == as_i8(bytes@[pos + 4 + j] as nat) as i8,
            decreases cnt - i,
        {
            arr.push(to_i8(bytes[pos + 4 + i]));
            i = i + 1;
        }
        proof {
            assert(arr@ =~= Seq::new(
                cnt as nat,
                |j: int| as_i8(bytes@[pos as int + 4 + j] as nat) as i8,
            ));
        }
        Ok((NbtValue::ByteArray(arr), pos + 4 + cnt))
    } else if t == 8 {
        if n - pos < 2 {
            return Err(NbtError::TruncatedChunk);
        }
        let slen = read_u16(bytes, pos) as usize;
        if n - (pos + 2) < slen {
            return Err(NbtError::InvalidLength);
        }
        let raw = read_data(bytes, pos + 2, slen);
        match bytes_to_string(raw) {
            Err(e) => Err(e),
            Ok(s) => Ok((NbtValue::String(s), pos + 2 + slen)),
        }
    } else if t == 9 {
        if n - pos < 5 {
            return Err(NbtError::TruncatedChunk);
        }
        let elem_t = bytes[pos];
        let cnt_i = to_i32(read_u32(bytes, pos + 1));
        if cnt_i < 0 {
            return Err(NbtError::InvalidLength);
        }
        if depth == 0 {
            return Err(NbtError::DepthLimitExceeded);
        }
        let ghost dm1 = (depth - 1) as nat;
        let cnt = cnt_i as usize;
        let mut items: Vec<NbtValue> = Vec::new();
        let mut cur: usize = pos + 5;
        let mut k: usize = 0;
        while k < cnt
            invariant
                k <= cnt,
                pos + 5 <= cur <= n,
                (match spec_list_elems(bytes@, cur as int, elem_t, cnt - k, dm1) {
                    Ok((rest, p)) => spec_list_elems(
                        bytes@,
                        pos + 5,
                        elem_t,
                        cnt as int,
                        dm1,
                    ) == Ok::<(Seq<SpecNbt>, int), NbtError>((dv_seq(items@) + rest, p)),
                    Err(e) => spec_list_elems(bytes@, pos + 5, elem_t, cnt as int, dm1) == Err::<
                        (Seq<SpecNbt>, int),
                        NbtError,
                    >(e),
                }),
            decreases cnt - k,
        {
            match decode_payload(bytes, cur, elem_t, depth - 1) {
                Err(e) => {
                    return Err(e);
                },
                Ok((v, p)) => {
                    proof {
                        lemma_dv_seq_elems(items@);
                        lemma_dv_seq_elems(items@.push(v));
                        assert(dv_seq(items@.push(v)) =~= dv_seq(items@).push(v.dv()));
                        match spec_list_elems(bytes@, p as int, elem_t, cnt - k - 1, dm1) {
                            Ok((r2, p2)) => {
                                assert(dv_seq(items@) + (seq![v.dv()] + r2) =~= dv_seq(
                                    items@,
                                ).push(v.dv()) + r2);
                            },
                            Err(e2) => {},
                        }
                    }
                    items.push(v);
                    cur = p;
                    k = k + 1;
                },
            }
        }
        proof {
            assert(dv_seq(items@) + Seq::<SpecNbt>::empty() =~= dv_seq(items@));
        }
        Ok((NbtValue::List(items), cur))
    } else if t == 10 {
        if depth == 0 {
            return Err(NbtError::DepthLimitExceeded);
        }
        let ghost dm1 = (depth - 1) as nat;
        let mut entries: Vec<(String, NbtValue)> = Vec::new();
        let ghost mut raw = Seq::<(Seq<char>, SpecNbt)>::empty();
        let mut cur: usize = pos;
        loop
            invariant
                pos <= cur <= n,
                dv_pairs(entries@) == compound_of(raw),
                (match spec_compound_items(bytes@, cur as int, dm1) {
                    Ok((rest, p)) => spec_compound_items(bytes@, pos as int, dm1) == Ok::<
                        (Seq<(Seq<char>, SpecNbt)>, int),
                        NbtError,
                    >((raw + rest, p)),
                    Err(e) => spec_compound_items(bytes@, pos as int, dm1) == Err::<
                        (Seq<(Seq<char>, SpecNbt)>, int),
                        NbtError,
                    >(e),
                }),
            decreases n - cur,
        {
            if cur == n {
                return Err(NbtError::MissingTerminator);
            }
            match decode_tags(bytes, cur, depth - 1) {
                Err(e) => {
                    return Err(e);
                },
                Ok((tag, p)) => {
                    proof {
                        lemma_spec_tag_shape(bytes@, cur as int, dm1);
                    }
                    if tag.name.is_none() && tag.data.is_none() {
                        proof {
                            assert(raw + Seq::<(Seq<char>, SpecNbt)>::empty() =~= raw);
                        }
                        return Ok((NbtValue::Compound(entries), p));
                    }
                    match (tag.name, tag.data) {
                        (Some(nm), Some(v)) => {
                            let ghost nms = nm@;
                            let ghost vdv = v.dv();
                            proof {
                                match spec_compound_items(bytes@, p as int, dm1) {
                                    Ok((r2, p2)) => {
                                        assert(raw + (seq![(nms, vdv)] + r2) =~= raw.push(
                                            (nms, vdv),
                                        ) + r2);
                                    },
                                    Err(e2) => {},
                                }
                                assert(raw.push((nms, vdv)).drop_last() =~= raw);
                            }
                            compound_insert(&mut entries, nm, v);
                            proof {
                                raw = raw.push((nms, vdv));
                            }
                            cur = p;
                        },
                        _ => {
                            // unreachable: a decoded tag carries both a name
                            // and data, or neither
                            proof {
                                assert(false);
                            }
                            return Err(NbtError::InvalidTagType(0));
                        },
                    }
                },
            }
        }
    } else if t == 11 {
        if n - pos < 4 {
            return Err(NbtError::TruncatedChunk);
        }
        let cnt_i = to_i32(read_u32(bytes, pos));
        if cnt_i < 0 {
            return Err(NbtError::InvalidLength);
        }
        let cnt = cnt_i as usize;
        let avail: u64 = (n - (pos + 4)) as u64;
        if 4u64 * (cnt as u64) > avail {
            return Err(NbtError::InvalidLength);
        }
        let mut arr: Vec<i32> = Vec::new();
        let mut i: usize = 0;
        while i < cnt
            invariant
                i <= cnt,
                arr@.len() == i,
                forall|j: int|
                    0 <= j < i ==> arr@[j] == as_i32(be32(bytes@, pos + 4 + 4 * j)) as i32,
            decreases cnt - i,
        {
            arr.push(to_i32(read_u32(bytes, pos + 4 + 4 * i)));
            i = i + 1;
        }
        proof {
            assert(arr@ =~= Seq::new(
                cnt as nat,
                |j: int| as_i32(be32(bytes@, pos as int + 4 + 4 * j)) as i32,
            ));
        }
        Ok((NbtValue::IntArray(arr), pos + 4 + 4 * cnt))
    } else if t == 12 {
        if n - pos < 4 {
            return Err(NbtError::TruncatedChunk);
        }
        let cnt_i = to_i32(read_u32(bytes, pos));
        if cnt_i < 0 {
            return Err(NbtError::InvalidLength);
        }
        let cnt = cnt_i as usize;
        let avail: u64 = (n - (pos + 4)) as u64;
        if 8u64 * (cnt as u64) > avail {
            return Err(NbtError::InvalidLength);
        }
        let mut arr: Vec<i64> = Vec::new();
        let mut i: usize = 0;
        while i < cnt
            invariant
                i <= cnt,
                arr@.len() == i,
                forall|j: int|
                    0 <= j < i ==> arr@[j] == as_i64(be64(bytes@, pos + 4 + 8 * j)) as i64,
            decreases cnt - i,
        {
            arr.push(to_i64(read_u64(bytes, pos + 4 + 8 * i)));
            i = i + 1;
        }
        proof {
            assert(arr@ =~= Seq::new(
                cnt as nat,
                |j: int| as_i64(be64(bytes@, pos as int + 4 + 8 * j)) as i64,
            ));
        }
        Ok((NbtValue::LongArray(arr), pos + 4 + 8 * cnt))
    } else {
        Err(NbtError::InvalidTagType(t))
    }
}

/// Decodes one named tag at `pos`, exactly as `spec_tag` describes: a type
/// byte, then (unless the type is End) a length-prefixed name and the
/// payload of that type.
pub fn decode_tags(bytes: &Vec<u8>, pos: usize, depth: usize) -> (r: Result<
    (NbtTag, usize),
    NbtError,
>)
    requires
        pos <= bytes@.len(),
    ensures
        (match r {
            Ok((tag, p)) => spec_tag(bytes@, pos as int, depth as nat) == Ok::<
                (SpecTag, int),
                NbtError,
            >((tag.dv(), p as int)) && pos < p <= bytes@.len(),
            Err(e) => spec_tag(bytes@, pos as int, depth as nat) == Err::<
                (SpecTag, int),
                NbtError,
            >(e),
        }),
    decreases depth, bytes@.len() - pos, 1int,
{
    let n: usize = bytes.len();
    if pos >= n {
        return Err(NbtError::TruncatedChunk);
    }
    let t = bytes[pos];
    if t == 0 {
        return Ok((NbtTag { name: None, data: None }, pos + 1));
    }
    if t > 12 {
        return Err(NbtError::InvalidTagType(t));
    }
    if n - pos < 3 {
        return Err(NbtError::TruncatedChunk);
    }
    let nlen = read_u16(bytes, pos + 1) as usize;
    if n - (pos + 3) < nlen {
        return Err(NbtError::InvalidLength);
    }
    let name_raw = read_data(bytes, pos + 3, nlen);
    let name = match bytes_to_string(name_raw) {
        Ok(s) => s,
        Err(e) => {
            return Err(e);
        },
    };
    match decode_payload(bytes, pos + 3 + nlen, t, depth) {
        Err(e) => Err(e),
        Ok((v, p)) => Ok((NbtTag { name: Some(name), data: Some(v) }, p)),
    }
}

/// Decodes the root named tag of an NBT byte buffer; bytes after the root
/// tag are ignored.
pub fn read_nbt(bytes: &Vec<u8>) -> (r: Result<NbtTag, NbtError>)
    ensures
        (match r {
            Ok(tag) => spec_read_nbt(bytes@) == Ok::<SpecTag, NbtError>(tag.dv()),
            Err(e) => spec_read_nbt(bytes@) == Err::<SpecTag, NbtError>(e),
        }),
{
    match decode_tags(bytes, 0, MAX_DEPTH) {
        Ok((tag, _)) => Ok(tag),
        Err(e) => Err(e),
    }
}

} // verus!
