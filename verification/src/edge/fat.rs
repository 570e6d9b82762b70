//! An edge is a fat pointer comprising edge compression metadata and a child:
//! either a value or a node.

use core::marker::PhantomData;
use vstd::prelude::*;

use crate::edge::be::be_view;
use crate::edge::be::be_wf;
use crate::edge::be::BE_MASK_KEY;
use crate::edge::be::BE_MASK_LEN;
use crate::edge::be::lemma_be_word_bits;
use crate::edge::be::lemma_len_bits;
use crate::edge::le::lemma_le_word_bits;
use crate::edge::le::le_view;
use crate::edge::le::le_wf;
use crate::edge::le::LE_MASK_KEY;
use crate::edge::Be;
use crate::edge::Le;
use crate::edge::MetaView;

verus! {

/// Edge compression metadata packed in a word.
pub trait Meta: Sized + Copy + View<V = MetaView> {
    /// Whether `raw` is a well-formed packed word.
    spec fn raw_wf(raw: u64) -> bool;

    /// What the packed word `raw` means.
    spec fn raw_view(raw: u64) -> MetaView;

    /// The zero word is well formed, with no key bytes and no flags.
    proof fn lemma_zero_wf()
        ensures
            Self::raw_wf(0),
            Self::raw_view(0) == (MetaView { bytes: Seq::empty(), value: false, frozen: false }),
    ;

    /// The zero word is the only word with no key bytes and no flags.
    proof fn lemma_zero(raw: u64)
        requires
            Self::raw_wf(raw),
        ensures
            (raw == 0) <==> (Self::raw_view(raw).bytes.len() == 0 && !Self::raw_view(raw).value
                && !Self::raw_view(raw).frozen),
    ;

    /// The packed word.
    fn into_raw_word(self) -> (r: u64)
        ensures
            Self::raw_wf(r),
            Self::raw_view(r) == self@,
    ;

    /// Reinterpret a well-formed packed word.
    fn from_raw_word(raw: u64) -> (r: Self)
        requires
            Self::raw_wf(raw),
        ensures
            r@ == Self::raw_view(raw),
    ;

    /// Whether the child is a value.
    fn value_flag(self) -> (r: bool)
        ensures
            r == self@.value,
    ;

    /// Whether the edge is frozen.
    fn frozen_flag(self) -> (r: bool)
        ensures
            r == self@.frozen,
    ;

    /// Set or clear the value flag.
    fn set_value(self, value: bool) -> (r: Self)
        ensures
            r@ == (MetaView { value, ..self@ }),
    ;

    /// Set or clear the frozen flag.
    fn set_frozen(self, frozen: bool) -> (r: Self)
        ensures
            r@ == (MetaView { frozen, ..self@ }),
    ;
}

impl Meta for Le {
    open spec fn raw_wf(raw: u64) -> bool {
        le_wf(raw)
    }

    open spec fn raw_view(raw: u64) -> MetaView {
        le_view(raw)
    }

    proof fn lemma_zero_wf() {
        lemma_le_word_bits(0, 0, 0, 0, false);
        assert(le_view(0).bytes =~= Seq::<u8>::empty());
    }

    proof fn lemma_zero(raw: u64) {
        Self::lemma_zero_wf();
        lemma_le_word_bits(raw, 0, 0, 0, false);
    }

    fn into_raw_word(self) -> (r: u64) {
        self.into_raw()
    }

    fn from_raw_word(raw: u64) -> (r: Self) {
        Le::from_raw_unchecked(raw)
    }

    fn value_flag(self) -> (r: bool) {
        self.is_value()
    }

    fn frozen_flag(self) -> (r: bool) {
        self.is_frozen()
    }

    fn set_value(self, value: bool) -> (r: Self) {
        self.with_value(value)
    }

    fn set_frozen(self, frozen: bool) -> (r: Self) {
        self.with_frozen(frozen)
    }
}

impl Meta for Be {
    open spec fn raw_wf(raw: u64) -> bool {
        be_wf(raw)
    }

    open spec fn raw_view(raw: u64) -> MetaView {
        be_view(raw)
    }

    proof fn lemma_zero_wf() {
        lemma_be_word_bits(0, 0, 0, 0, false);
        assert(be_view(0).bytes =~= Seq::<u8>::empty());
    }

    proof fn lemma_zero(raw: u64) {
        Self::lemma_zero_wf();
        lemma_len_bits(raw);
        lemma_be_word_bits(raw, 0, 0, 0, false);
    }

    fn into_raw_word(self) -> (r: u64) {
        self.into_raw()
    }

    fn from_raw_word(raw: u64) -> (r: Self) {
        Be::from_raw_unchecked(raw)
    }

    fn value_flag(self) -> (r: bool) {
        self.is_value()
    }

    fn frozen_flag(self) -> (r: bool) {
        self.is_frozen()
    }

    fn set_value(self, value: bool) -> (r: Self) {
        self.with_value(value)
    }

    fn set_frozen(self, frozen: bool) -> (r: Self) {
        self.with_frozen(frozen)
    }
}

/// What an edge means: its metadata and its child word.
pub ghost struct EdgeView {
    /// Edge compression metadata.
    pub meta: MetaView,
    /// The child: a value, or the address of a node (zero for no child).
    pub child: u64,
}

/// Non-null child of an edge.
#[derive(Clone, Copy, Debug, PartialEq, Eq, Structural)]
pub enum Child {
    /// The address of a node.
    Node(u64),
    /// A value.
    Value(u64),
}

/// A fat pointer to a value or a node: metadata in the high word, child in
/// the low word.
#[derive(Copy, Debug)]
pub struct Edge<M: Meta> {
    raw: u128,
    meta: PhantomData<M>,
}

/// An edge with its metadata type erased.
#[derive(Clone, Copy, Debug)]
pub struct Raw {
    raw: u128,
}

impl Raw {
    /// The null edge.
    pub fn null() -> (r: Self)
        ensures
            r.word() == 0,
    {
        Raw { raw: 0 }
    }

    /// The packed word of this edge.
    pub closed spec fn word(self) -> u128 {
        self.raw
    }
}

impl<M: Meta> Clone for Edge<M> {
    fn clone(&self) -> (r: Self)
        ensures
            r == *self,
    {
        *self
    }
}

/// Bit-level facts about a 128-bit edge word: metadata in the high half,
/// the child in the low half.
proof fn lemma_edge_word_bits(raw: u128, c: u128, word: u64, child: u64)
    by (bit_vector)
    ensures
        (0u128 >> 64u128) as u64 == 0 && 0u128 as u64 == 0,
        ({
            let joined = c & 0xffff_ffff_ffff_ffff | ((word as u128) << 64u128);
            (joined >> 64u128) as u64 == word && joined as u64 == c as u64
        }),
        ({
            let joined = ((word as u128) << 64u128) | child as u128;
            (joined >> 64u128) as u64 == word && joined as u64 == child
        }),
        (raw == 0) <==> ((raw >> 64u128) as u64 == 0 && raw as u64 == 0),
{
}

impl<M: Meta> View for Edge<M> {
    type V = EdgeView;

    closed spec fn view(&self) -> EdgeView {
        EdgeView { meta: M::raw_view((self.raw >> 64u128) as u64), child: self.raw as u64 }
    }
}

impl<M: Meta> Edge<M> {
    #[verifier::type_invariant]
    closed spec fn inv(self) -> bool {
        M::raw_wf((self.raw >> 64u128) as u64)
    }

    /// The packed word of this edge.
    pub closed spec fn word(self) -> u128 {
        self.raw
    }

    /// The null edge: no metadata and no child.
    pub fn null() -> (r: Self)
        ensures
            r@.meta == (MetaView { bytes: Seq::empty(), value: false, frozen: false }),
            r@.child == 0,
    {
        proof {
            M::lemma_zero_wf();
            lemma_edge_word_bits(0, 0, 0, 0);
        }
        Edge { raw: 0, meta: PhantomData }
    }

    /// The edge compression metadata.
    pub fn meta(self) -> (r: M)
        ensures
            r@ == self@.meta,
    {
        proof {
            use_type_invariant(&self);
        }
        M::from_raw_word((self.raw >> 64) as u64)
    }

    /// The packed metadata word of this edge.
    pub fn meta_word(self) -> (r: u64)
        ensures
            M::raw_wf(r),
            M::raw_view(r) == self@.meta,
            r == (self.word() >> 64u128) as u64,
    {
        proof {
            use_type_invariant(&self);
        }
        (self.raw >> 64) as u64
    }

    /// The same child with new metadata.
    pub fn with_meta(self, meta: M) -> (r: Self)
        ensures
            r@ == (EdgeView { meta: meta@, ..self@ }),
    {
        let word = meta.into_raw_word();
        let raw = self.raw & 0xffff_ffff_ffff_ffff | ((word as u128) << 64);
        proof {
            lemma_edge_word_bits(raw, self.raw, word, 0);
        }
        Edge { raw, meta: PhantomData }
    }

    /// The child word.
    pub fn child_raw(self) -> (r: u64)
        ensures
            r == self@.child,
    {
        self.raw as u64
    }

    fn from_parts(meta: M, child: u64) -> (r: Self)
        ensures
            r@ == (EdgeView { meta: meta@, child }),
    {
        let word = meta.into_raw_word();
        let raw = ((word as u128) << 64) | child as u128;
        proof {
            lemma_edge_word_bits(raw, 0, word, child);
        }
        Edge { raw, meta: PhantomData }
    }

    /// An edge with metadata `meta` (its value flag cleared) whose child is
    /// the node at address `node`.
    pub fn new_node(meta: M, node: u64) -> (r: Self)
        ensures
            r@ == (EdgeView { meta: MetaView { value: false, ..meta@ }, child: node }),
    {
        Self::from_parts(meta.set_value(false), node)
    }

    /// An edge with metadata `meta` (its value flag set) whose child is `value`.
    pub fn new_value(meta: M, value: u64) -> (r: Self)
        ensures
            r@ == (EdgeView { meta: MetaView { value: true, ..meta@ }, child: value }),
    {
        Self::from_parts(meta.set_value(true), value)
    }

    /// Set the frozen bit of this edge.
    pub fn freeze(edge: &mut Self)
        ensures
            final(edge)@ == (EdgeView {
                meta: MetaView { frozen: true, ..old(edge)@.meta },
                ..old(edge)@
            }),
    {
        let old = *edge;
        if !old.meta().frozen_flag() {
            *edge = old.with_meta(old.meta().set_frozen(true));
        } else {
            proof {
                assert(old@.meta == MetaView { frozen: true, ..old@.meta });
            }
        }
    }

    /// Whether this edge has no child (the frozen bit is ignored).
    pub fn is_null(self) -> (r: bool)
        ensures
            r <==> self@.meta.bytes.len() == 0 && !self@.meta.value && self@.child == 0,
    {
        let unfrozen = self.unfreeze();
        let raw = unfrozen.raw;
        proof {
            use_type_invariant(&unfrozen);
            let m = (raw >> 64u128) as u64;
            M::lemma_zero(m);
            lemma_edge_word_bits(raw, 0, 0, 0);
        }
        raw == 0
    }

    /// The node at the end of this edge, if its child is a node.
    pub fn as_node(self) -> (r: Option<u64>)
        ensures
            r == (if self@.meta.value || self@.child == 0 {
                None
            } else {
                Some(self@.child)
            }),
    {
        if self.meta().value_flag() {
            return None;
        }
        let child = self.child_raw();
        if child == 0 {
            None
        } else {
            Some(child)
        }
    }

    /// The child of this edge, if it has one.
    pub fn child(self) -> (r: Option<Child>)
        ensures
            r == (if self@.meta.value {
                Some(Child::Value(self@.child))
            } else if self@.child == 0 {
                None
            } else {
                Some(Child::Node(self@.child))
            }),
    {
        let raw = self.child_raw();
        if self.meta().value_flag() {
            Some(Child::Value(raw))
        } else if raw == 0 {
            None
        } else {
            Some(Child::Node(raw))
        }
    }

    /// Clear the frozen bit of this edge.
    pub fn unfreeze(self) -> (r: Self)
        ensures
            r@ == (EdgeView { meta: MetaView { frozen: false, ..self@.meta }, ..self@ }),
    {
        self.with_meta(self.meta().set_frozen(false))
    }

    /// Erase this edge's metadata type.
    pub fn erase(self) -> (r: Raw)
        ensures
            r.word() == self.word(),
    {
        Raw { raw: self.raw }
    }

    /// The packed word of this edge.
    pub fn into_raw(self) -> (r: u128)
        ensures
            r == self.word(),
    {
        self.raw
    }

    /// Reinterpret a packed word whose metadata is well formed.
    pub fn from_raw_unchecked(raw: u128) -> (r: Self)
        requires
            M::raw_wf((raw >> 64u128) as u64),
        ensures
            r.word() == raw,
            r@ == (EdgeView { meta: M::raw_view((raw >> 64u128) as u64), child: raw as u64 }),
    {
        Edge { raw, meta: PhantomData }
    }
}

} // verus!
