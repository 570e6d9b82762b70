//! Scan order and scan bounds.
//!
//! A bound of a range scan is either absent ([`Unbound`]) or an inclusive
//! key ([`Include`]). While the tree is walked, an inclusive bound is
//! checked against each edge on the path: an edge entirely on the wrong
//! side is pruned, an edge entirely inside lifts the bound for its subtree,
//! and an edge that matches the bound's next bytes consumes them.

use core::cmp::Ordering;
use vstd::prelude::*;

use crate::edge::first_difference;
use crate::edge::law_lex_order_first_difference;
use crate::edge::law_lex_order_proper_prefix;
use crate::edge::lex_order;
use crate::edge::proper_prefix;
use crate::edge::lemma_lex_order_equal;
use crate::edge::Child;
use crate::edge::fat::EdgeView;
use crate::edge::Edge;
use crate::edge::Le;
use crate::key::bytes;
use crate::key::Terminate;
use crate::len::Bit;
use crate::len::Byte;
use crate::len::UNBOUNDED;

verus! {

/// Key order of a scan.
#[derive(Clone, Copy, Debug, PartialEq, Eq, Structural)]
pub enum Order {
    /// Ascending key order.
    Ascend,
    /// Descending key order.
    Descend,
}

impl Default for Order {
    fn default() -> (r: Self)
        ensures
            r == Order::Ascend,
    {
        Order::Ascend
    }
}

impl Order {
    /// Whether keys are visited in ascending order.
    pub fn is_ascend(self) -> (r: bool)
        ensures
            r <==> self == Order::Ascend,
    {
        match self {
            Order::Ascend => true,
            Order::Descend => false,
        }
    }
}

/// A missing bound: every key is within it.
#[derive(Clone, Copy, Debug, PartialEq, Eq, Structural)]
pub struct Unbound;

impl Unbound {
    /// An unbounded side stays unbounded below every edge.
    pub fn check(&self) -> (r: Option<Unbound>)
        ensures
            r == Some(Unbound),
    {
        Some(Unbound)
    }
}

/// The least key byte admitted by a lower bound on one node (`None` admits
/// every byte).
pub fn lower_get(bound: Option<u8>) -> (r: u8)
    ensures
        r == match bound {
            Some(b) => b,
            None => 0u8,
        },
{
    match bound {
        Some(b) => b,
        None => 0,
    }
}

/// The greatest key byte admitted by an upper bound on one node (`None`
/// admits every byte).
pub fn upper_get(bound: Option<u8>) -> (r: u8)
    ensures
        r == match bound {
            Some(b) => b,
            None => 255u8,
        },
{
    match bound {
        Some(b) => b,
        None => 255,
    }
}

/// Whether `byte` lies exactly on the bound, so that the bound goes on into
/// the subtree below it.
pub fn bound_check(bound: Option<u8>, byte: u8) -> (r: bool)
    ensures
        r <==> bound == Some(byte),
{
    match bound {
        Some(b) => b == byte,
        None => false,
    }
}

/// The first `n` bytes of `key`, or all of it if it is shorter.
pub open spec fn bound_bytes(key: Seq<u8>, n: nat) -> Seq<u8> {
    key.take(
        if n <= key.len() {
            n as int
        } else {
            key.len() as int
        },
    )
}

/// The byte of `key` at `n`, if any.
pub open spec fn next_byte(key: Seq<u8>, n: nat) -> Option<u8> {
    if n < key.len() {
        Some(key[n as int])
    } else {
        None
    }
}

/// What remains of `key` once `n` bytes and the next byte (if any) are
/// consumed.
pub open spec fn rest_after(key: Seq<u8>, n: nat) -> Seq<u8> {
    key.skip(
        if n < key.len() {
            n + 1int
        } else {
            n as int
        },
    )
}

/// Key bytes `bytes` go beyond the bound key `key`: every key through
/// them sorts after `key`, since they extend it or are greater at the
/// first byte where they differ.
pub open spec fn beyond(bytes: Seq<u8>, key: Seq<u8>) -> bool {
    ||| proper_prefix(key, bytes)
    ||| exists|i: int| #[trigger] first_difference(bytes, key, i) && bytes[i] > key[i]
}

/// Key bytes `bytes` fall short of the bound key `key`: every key through
/// them sorts before `key`, since they are smaller at the first byte where
/// they differ.
pub open spec fn short_of(bytes: Seq<u8>, key: Seq<u8>) -> bool {
    exists|i: int| #[trigger] first_difference(bytes, key, i) && bytes[i] < key[i]
}

/// How key bytes compare with as many bytes of a bound key: after them if
/// they go beyond the key, before them if they fall short of it.
proof fn lemma_bound_bytes_order(bytes: Seq<u8>, key: Seq<u8>)
    ensures
        beyond(bytes, key) ==> lex_order(bytes, bound_bytes(key, bytes.len())) == Ordering::Greater,
        short_of(bytes, key) ==> lex_order(bytes, bound_bytes(key, bytes.len())) == Ordering::Less,
{
    let bb = bound_bytes(key, bytes.len());
    if exists|i: int| #[trigger] first_difference(bytes, key, i) {
        let i = choose|i: int| #[trigger] first_difference(bytes, key, i);
        assert(first_difference(bytes, bb, i));
        law_lex_order_first_difference(bytes, bb, i);
        if exists|k: int| #[trigger] first_difference(bytes, key, k) && k != i {
            let k = choose|k: int| #[trigger] first_difference(bytes, key, k) && k != i;
            if k < i {
                assert(bytes[k] == key[k]);
            } else {
                assert(bytes[i] == key[i]);
            }
        }
    }
    if proper_prefix(key, bytes) {
        assert(bb =~= key);
        law_lex_order_proper_prefix(bb, bytes);
        if exists|i: int| #[trigger] first_difference(bytes, key, i) {
            let i = choose|i: int| #[trigger] first_difference(bytes, key, i);
            assert(bytes[i] == key[i]);
        }
    }
}

/// An inclusive bound: the rest of a key that the walk has not consumed
/// yet.
#[derive(Clone, Copy, Debug)]
pub struct Include<'k, T: Terminate> {
    reader: bytes::Reader<'k, T>,
}

impl<'k, T: Terminate> Include<'k, T> {
    /// The bytes of the bound not consumed yet.
    pub closed spec fn key(self) -> Seq<u8> {
        self.reader.key()
    }

    /// Whether the bound fits the limits of a key length.
    pub closed spec fn fits(self) -> bool {
        self.reader.spec_slice().len() + 1 < UNBOUNDED
    }

    /// An inclusive bound at the key `reader` stands for.
    pub fn new(reader: bytes::Reader<'k, T>) -> (r: Self)
        ensures
            r.key() == reader.key(),
            r.fits() == (reader.spec_slice().len() + 1 < UNBOUNDED),
    {
        Include { reader }
    }

    /// Consume `len` bits of the bound (an edge that matched them) and the
    /// byte after them, which is returned if there is one.
    pub fn check_eq(&mut self, len: Bit<56>) -> (r: Option<u8>)
        requires
            old(self).fits(),
            len@ / 8 <= old(self).key().len(),
        ensures
            r == next_byte(old(self).key(), len@ / 8),
            final(self).key() == rest_after(old(self).key(), len@ / 8),
            final(self).fits(),
    {
        let n = len.bytes();
        let next = self.reader.get_byte(n);
        let skip: usize = match next {
            None => 0,
            Some(_) => 1,
        };
        let reader = self.reader.copied().suffix(Byte::new(skip + n));
        self.reader = reader;
        next
    }

    /// Check a lower bound against `edge`: `None` if the edge lies below the
    /// bound (prune it), `Some(None)` if above (no bound below it), and
    /// `Some(byte)` if the edge matches the bound, which then moves past it.
    pub fn check_lower(&mut self, edge: Le) -> (r: Option<Option<u8>>)
        requires
            old(self).fits(),
        ensures
            final(self).fits(),
            ({
                let key = old(self).key();
                let n = edge@.bytes.len();
                match lex_order(edge@.bytes, bound_bytes(key, n)) {
                    Ordering::Less => r is None && final(self).key() == key,
                    Ordering::Greater => r == Some(None::<u8>) && final(self).key() == key,
                    Ordering::Equal => r == Some(next_byte(key, n)) && final(self).key()
                        == rest_after(key, n),
                }
            }),
    {
        let len = edge.len();
        let bound = self.reader.get_edge(len);
        let order = edge.compare(&bound);
        proof {
            lemma_lex_order_equal(edge@.bytes, bound@.bytes);
        }
        match order {
            Ordering::Less => None,
            Ordering::Equal => Some(self.check_eq(len)),
            Ordering::Greater => Some(None),
        }
    }

    /// Check an upper bound against `edge`: `None` if the edge lies above
    /// the bound (prune it), `Some(None)` if below (no bound below it), and
    /// `Some(byte)` if the edge matches the bound, which then moves past it.
    pub fn check_upper(&mut self, edge: Le) -> (r: Option<Option<u8>>)
        requires
            old(self).fits(),
        ensures
            final(self).fits(),
            ({
                let key = old(self).key();
                let n = edge@.bytes.len();
                match lex_order(edge@.bytes, bound_bytes(key, n)) {
                    Ordering::Less => r == Some(None::<u8>) && final(self).key() == key,
                    Ordering::Greater => r is None && final(self).key() == key,
                    Ordering::Equal => r == Some(next_byte(key, n)) && final(self).key()
                        == rest_after(key, n),
                }
            }),
    {
        let len = edge.len();
        let bound = self.reader.get_edge(len);
        let order = edge.compare(&bound);
        proof {
            lemma_lex_order_equal(edge@.bytes, bound@.bytes);
        }
        match order {
            Ordering::Less => Some(None),
            Ordering::Equal => Some(self.check_eq(len)),
            Ordering::Greater => None,
        }
    }
}

/// What checking a lower bound with key `key` against an edge with key
/// bytes `bytes` gives: the bound below the edge (`None` if the edge is
/// pruned) and what remains of the bound.
pub open spec fn lower_check_spec(key: Seq<u8>, bytes: Seq<u8>) -> (Option<Option<u8>>, Seq<u8>) {
    let n = bytes.len();
    match lex_order(bytes, bound_bytes(key, n)) {
        Ordering::Less => (None, key),
        Ordering::Greater => (Some(None), key),
        Ordering::Equal => (Some(next_byte(key, n)), rest_after(key, n)),
    }
}

/// What checking an upper bound with key `key` against an edge with key
/// bytes `bytes` gives: the bound below the edge (`None` if the edge is
/// pruned) and what remains of the bound.
pub open spec fn upper_check_spec(key: Seq<u8>, bytes: Seq<u8>) -> (Option<Option<u8>>, Seq<u8>) {
    let n = bytes.len();
    match lex_order(bytes, bound_bytes(key, n)) {
        Ordering::Less => (Some(None), key),
        Ordering::Greater => (None, key),
        Ordering::Equal => (Some(next_byte(key, n)), rest_after(key, n)),
    }
}

/// The key of an optional bound (empty when there is none).
pub open spec fn bound_key<'k, T: Terminate>(bound: Option<Include<'k, T>>) -> Seq<u8> {
    match bound {
        Some(b) => b.key(),
        None => Seq::empty(),
    }
}

/// Whether an optional bound fits the limits of a key length.
pub open spec fn bound_fits<'k, T: Terminate>(bound: Option<Include<'k, T>>) -> bool {
    match bound {
        Some(b) => b.fits(),
        None => true,
    }
}

/// Decision of a range walk at one edge below a node.
#[derive(Clone, Copy, Debug, PartialEq, Eq, Structural)]
pub enum WalkStep {
    /// Leave the edge out and go on with the next one.
    Skip,
    /// The walk is over: every key still to come lies beyond a bound.
    Stop,
    /// The edge leads to a value within the bounds.
    Value(u64),
    /// The edge leads to a node: walk its children between these bytes.
    Node(u64, Option<u8>, Option<u8>),
}

/// Decision of a range walk at the edge for key byte `byte` below a node
/// (see [`walk_step`]), with the keys of the range bounds (`has_lower`,
/// `has_upper`: whether there is one) before the step; also what remains
/// of the bounds' keys after it.
pub open spec fn walk_step_spec(
    ascend: bool,
    lower_key: Seq<u8>,
    has_lower: bool,
    upper_key: Seq<u8>,
    has_upper: bool,
    lower_byte: Option<u8>,
    upper_byte: Option<u8>,
    byte: u8,
    edge: EdgeView,
) -> (WalkStep, Seq<u8>, Seq<u8>) {
    let meta = edge.meta;
    let has_child = meta.value || edge.child != 0;
    let lower_checked = has_child && lower_byte == Some(byte) && has_lower;
    let (lres, lkey) = if lower_checked {
        lower_check_spec(lower_key, meta.bytes)
    } else {
        (Some(None::<u8>), lower_key)
    };
    let upper_checked = has_child && lres is Some && upper_byte == Some(byte) && has_upper;
    let (ures, ukey) = if upper_checked {
        upper_check_spec(upper_key, meta.bytes)
    } else {
        (Some(None::<u8>), upper_key)
    };
    let r = if !has_child {
        WalkStep::Skip
    } else if lres is None {
        if ascend {
            WalkStep::Skip
        } else {
            WalkStep::Stop
        }
    } else if ures is None {
        if ascend {
            WalkStep::Stop
        } else {
            WalkStep::Skip
        }
    } else if meta.value {
        WalkStep::Value(edge.child)
    } else {
        WalkStep::Node(edge.child, lres->0, ures->0)
    };
    (r, lkey, ukey)
}

/// A range walk yields nothing above its upper bound: at an edge with a
/// child on the upper bound's byte, whose key bytes go beyond the rest of
/// the upper bound, the walk neither takes a value nor descends, whether
/// the edge leads to a value or to a node; an ascending walk stops there
/// unless the edge also lies on the lower bound's byte.
pub proof fn law_walk_step_upper_bound(
    ascend: bool,
    lower_key: Seq<u8>,
    has_lower: bool,
    upper_key: Seq<u8>,
    lower_byte: Option<u8>,
    upper_byte: Option<u8>,
    byte: u8,
    edge: EdgeView,
)
    requires
        edge.meta.value || edge.child != 0,
        upper_byte == Some(byte),
        beyond(edge.meta.bytes, upper_key),
    ensures
        ({
            let r = walk_step_spec(
                ascend,
                lower_key,
                has_lower,
                upper_key,
                true,
                lower_byte,
                upper_byte,
                byte,
                edge,
            ).0;
            &&& r is Skip || r is Stop
            &&& ascend && !(has_lower && lower_byte == Some(byte)) ==> r is Stop
        }),
{
    lemma_bound_bytes_order(edge.meta.bytes, upper_key);
}

/// A range walk yields nothing below its lower bound: at an edge with a
/// child on the lower bound's byte, whose key bytes fall short of the rest
/// of the lower bound, the walk neither takes a value nor descends; a
/// descending walk stops there.
pub proof fn law_walk_step_lower_bound(
    ascend: bool,
    lower_key: Seq<u8>,
    upper_key: Seq<u8>,
    has_upper: bool,
    lower_byte: Option<u8>,
    upper_byte: Option<u8>,
    byte: u8,
    edge: EdgeView,
)
    requires
        edge.meta.value || edge.child != 0,
        lower_byte == Some(byte),
        short_of(edge.meta.bytes, lower_key),
    ensures
        ({
            let r = walk_step_spec(
                ascend,
                lower_key,
                true,
                upper_key,
                has_upper,
                lower_byte,
                upper_byte,
                byte,
                edge,
            ).0;
            &&& r is Skip || r is Stop
            &&& !ascend ==> r is Stop
        }),
{
    lemma_bound_bytes_order(edge.meta.bytes, lower_key);
}

/// A range walk yields what lies strictly within its bounds: at an edge
/// with a child that neither bound constrains (it is off the bound's byte,
/// the bound is absent, or the edge's key bytes lie beyond the lower bound
/// and short of the upper one), the walk takes the value, or descends into
/// the node with neither bound below it, and both bounds stay as they are.
pub proof fn law_walk_step_inside(
    ascend: bool,
    lower_key: Seq<u8>,
    has_lower: bool,
    upper_key: Seq<u8>,
    has_upper: bool,
    lower_byte: Option<u8>,
    upper_byte: Option<u8>,
    byte: u8,
    edge: EdgeView,
)
    requires
        edge.meta.value || edge.child != 0,
        lower_byte != Some(byte) || !has_lower || beyond(edge.meta.bytes, lower_key),
        upper_byte != Some(byte) || !has_upper || short_of(edge.meta.bytes, upper_key),
    ensures
        walk_step_spec(
            ascend,
            lower_key,
            has_lower,
            upper_key,
            has_upper,
            lower_byte,
            upper_byte,
            byte,
            edge,
        ) == (
            if edge.meta.value {
                WalkStep::Value(edge.child)
            } else {
                WalkStep::Node(edge.child, None, None)
            },
            lower_key,
            upper_key,
        ),
{
    lemma_bound_bytes_order(edge.meta.bytes, lower_key);
    lemma_bound_bytes_order(edge.meta.bytes, upper_key);
}

/// A range walk follows a bound into the node below an edge whose key bytes
/// are the bound's next bytes: it descends with the bound's byte after
/// them as the node's bound, and the bound moves past them; a bound that
/// does not reach the edge is lifted below it and stays as it is.
pub proof fn law_walk_step_follows_bounds(
    ascend: bool,
    lower_key: Seq<u8>,
    has_lower: bool,
    upper_key: Seq<u8>,
    has_upper: bool,
    lower_byte: Option<u8>,
    upper_byte: Option<u8>,
    byte: u8,
    edge: EdgeView,
)
    requires
        !edge.meta.value,
        edge.child != 0,
        lower_byte == Some(byte) && has_lower ==> edge.meta.bytes.is_prefix_of(lower_key),
        upper_byte == Some(byte) && has_upper ==> edge.meta.bytes.is_prefix_of(upper_key),
    ensures
        ({
            let n = edge.meta.bytes.len();
            let on_lower = lower_byte == Some(byte) && has_lower;
            let on_upper = upper_byte == Some(byte) && has_upper;
            walk_step_spec(
                ascend,
                lower_key,
                has_lower,
                upper_key,
                has_upper,
                lower_byte,
                upper_byte,
                byte,
                edge,
            ) == (
                WalkStep::Node(
                    edge.child,
                    if on_lower {
                        next_byte(lower_key, n)
                    } else {
                        None
                    },
                    if on_upper {
                        next_byte(upper_key, n)
                    } else {
                        None
                    },
                ),
                if on_lower {
                    rest_after(lower_key, n)
                } else {
                    lower_key
                },
                if on_upper {
                    rest_after(upper_key, n)
                } else {
                    upper_key
                },
            )
        }),
{
    let bytes = edge.meta.bytes;
    if lower_byte == Some(byte) && has_lower {
        assert(bound_bytes(lower_key, bytes.len()) =~= bytes);
        lemma_lex_order_equal(bytes, bound_bytes(lower_key, bytes.len()));
    }
    if upper_byte == Some(byte) && has_upper {
        assert(bound_bytes(upper_key, bytes.len()) =~= bytes);
        lemma_lex_order_equal(bytes, bound_bytes(upper_key, bytes.len()));
    }
}

/// Decision of a range walk at the edge for key byte `byte` below a node,
/// the edge loaded as `edge`. `lower_byte` and `upper_byte` are the bounds
/// on the node's key bytes (`None`: the range bound does not reach the
/// node); `lower` and `upper` are the range bounds (`None`: unbounded),
/// checked against the edge when the byte lies on them, which consumes the
/// matched part. The walk goes in ascending order if `ascend`. The caller
/// records `byte` and the edge's key bytes in the key under construction
/// for every edge that has a child.
pub fn walk_step<'k, T: Terminate>(
    ascend: bool,
    lower: &mut Option<Include<'k, T>>,
    upper: &mut Option<Include<'k, T>>,
    lower_byte: Option<u8>,
    upper_byte: Option<u8>,
    byte: u8,
    edge: Edge<Le>,
) -> (r: WalkStep)
    requires
        bound_fits(*old(lower)),
        bound_fits(*old(upper)),
    ensures
        bound_fits(*final(lower)),
        bound_fits(*final(upper)),
        (*final(lower) is Some) == (*old(lower) is Some),
        (*final(upper) is Some) == (*old(upper) is Some),
        (r, bound_key(*final(lower)), bound_key(*final(upper))) == walk_step_spec(
            ascend,
            bound_key(*old(lower)),
            *old(lower) is Some,
            bound_key(*old(upper)),
            *old(upper) is Some,
            lower_byte,
            upper_byte,
            byte,
            edge@,
        ),
{
    let child = match edge.child() {
        Some(child) => child,
        None => return WalkStep::Skip,
    };
    let meta = edge.meta();
    let lower_next = if bound_check(lower_byte, byte) {
        let checked = match lower {
            Some(bound) => bound.check_lower(meta),
            None => Some(None),
        };
        match checked {
            Some(next) => next,
            None => {
                return if ascend {
                    WalkStep::Skip
                } else {
                    WalkStep::Stop
                };
            },
        }
    } else {
        None
    };
    let upper_next = if bound_check(upper_byte, byte) {
        let checked = match upper {
            Some(bound) => bound.check_upper(meta),
            None => Some(None),
        };
        match checked {
            Some(next) => next,
            None => {
                return if ascend {
                    WalkStep::Stop
                } else {
                    WalkStep::Skip
                };
            },
        }
    } else {
        None
    };
    match child {
        Child::Value(value) => WalkStep::Value(value),
        Child::Node(node) => WalkStep::Node(node, lower_next, upper_next),
    }
}

/// How a range walk starts at the root edge.
#[derive(Clone, Copy, Debug, PartialEq, Eq, Structural)]
pub enum RangeStart {
    /// No key of the tree lies within the bounds.
    Empty,
    /// The root edge leads to a value within the bounds.
    Value(u64),
    /// The root edge leads to a node: walk its children between these
    /// bytes.
    Node(u64, Option<u8>, Option<u8>),
}

/// How a range walk starts at the root edge, loaded as `edge`: both range
/// bounds (`None`: unbounded) are checked against it, which consumes what
/// they match of it.
pub fn range_start<'k, T: Terminate>(
    lower: &mut Option<Include<'k, T>>,
    upper: &mut Option<Include<'k, T>>,
    edge: Edge<Le>,
) -> (r: RangeStart)
    requires
        bound_fits(*old(lower)),
        bound_fits(*old(upper)),
    ensures
        bound_fits(*final(lower)),
        bound_fits(*final(upper)),
        (*final(lower) is Some) == (*old(lower) is Some),
        (*final(upper) is Some) == (*old(upper) is Some),
        ({
            let meta = edge@.meta;
            let has_child = meta.value || edge@.child != 0;
            let (lres, lkey) = if has_child && *old(lower) is Some {
                lower_check_spec(bound_key(*old(lower)), meta.bytes)
            } else {
                (Some(None::<u8>), bound_key(*old(lower)))
            };
            let (ures, ukey) = if has_child && *old(upper) is Some {
                upper_check_spec(bound_key(*old(upper)), meta.bytes)
            } else {
                (Some(None::<u8>), bound_key(*old(upper)))
            };
            &&& bound_key(*final(lower)) == lkey
            &&& bound_key(*final(upper)) == ukey
            &&& r == if !has_child || lres is None || ures is None {
                RangeStart::Empty
            } else if meta.value {
                RangeStart::Value(edge@.child)
            } else {
                RangeStart::Node(edge@.child, lres->0, ures->0)
            }
        }),
{
    let child = match edge.child() {
        Some(child) => child,
        None => return RangeStart::Empty,
    };
    let meta = edge.meta();
    let lower_checked = match lower {
        Some(bound) => bound.check_lower(meta),
        None => Some(None),
    };
    let upper_checked = match upper {
        Some(bound) => bound.check_upper(meta),
        None => Some(None),
    };
    match (lower_checked, upper_checked) {
        (Some(lower_byte), Some(upper_byte)) => match child {
            Child::Value(value) => RangeStart::Value(value),
            Child::Node(node) => RangeStart::Node(node, lower_byte, upper_byte),
        },
        _ => RangeStart::Empty,
    }
}

} // verus!
