use vstd::prelude::*;

verus! {

/// A byte range in the source text.
pub type Span = core::ops::Range<usize>;

/// Position of a node in the flat node list of a syntax tree.
#[derive(Debug, Copy, Clone, PartialEq, Eq, Structural, Hash, Ord, PartialOrd)]
pub struct NodeRef(pub usize);

impl NodeRef {
    /// The root node, which always comes first.
    pub fn root() -> (r: NodeRef)
        ensures
            r.0 == 0,
    {
        NodeRef(0)
    }
}

/// Largest value (exclusive) that a `CstIndex` can hold: 48 bits.
pub open spec fn cst_index_limit() -> nat {
    0x1_0000_0000_0000
}

/// A compact 48-bit unsigned index stored in six little-endian bytes.
#[derive(Debug, Copy, Clone)]
pub struct CstIndex([u8; 6]);

/// The number denoted by six little-endian bytes.
pub open spec fn le_bytes_value(b: Seq<u8>) -> nat
    recommends
        b.len() == 6,
{
    (b[0] as nat) + 0x100 * (b[1] as nat) + 0x1_0000 * (b[2] as nat) + 0x100_0000 * (b[3] as nat)
        + 0x1_0000_0000 * (b[4] as nat) + 0x100_0000_0000 * (b[5] as nat)
}

impl CstIndex {
    /// The index held, always below `cst_index_limit()`.
    pub closed spec fn value(self) -> nat {
        le_bytes_value(self.0@)
    }

    #[verifier::type_invariant]
    closed spec fn fits_usize(self) -> bool {
        self.value() <= usize::MAX
    }

    /// Packs the low 48 bits of `value`; larger values are truncated, and a value below the
    /// limit comes back unchanged from [`get`](CstIndex::get).
    pub fn new(value: usize) -> (r: CstIndex)
        ensures
            r.value() == value as nat % cst_index_limit(),
            value < cst_index_limit() ==> r.value() == value,
    {
        let x = value as u64;
        let b0 = (x & 0xff) as u8;
        let b1 = ((x >> 8u64) & 0xff) as u8;
        let b2 = ((x >> 16u64) & 0xff) as u8;
        let b3 = ((x >> 24u64) & 0xff) as u8;
        let b4 = ((x >> 32u64) & 0xff) as u8;
        let b5 = ((x >> 40u64) & 0xff) as u8;
        assert((b0 as nat) + 0x100 * (b1 as nat) + 0x1_0000 * (b2 as nat) + 0x100_0000 * (
        b3 as nat) + 0x1_0000_0000 * (b4 as nat) + 0x100_0000_0000 * (b5 as nat) == x as nat
            % 0x1_0000_0000_0000) by (bit_vector)
            requires
                b0 == (x & 0xff) as u8,
                b1 == ((x >> 8u64) & 0xff) as u8,
                b2 == ((x >> 16u64) & 0xff) as u8,
                b3 == ((x >> 24u64) & 0xff) as u8,
                b4 == ((x >> 32u64) & 0xff) as u8,
                b5 == ((x >> 40u64) & 0xff) as u8,
        ;
        let bytes = [b0, b1, b2, b3, b4, b5];
        assert(bytes@[0] == b0 && bytes@[1] == b1 && bytes@[2] == b2 && bytes@[3] == b3
            && bytes@[4] == b4 && bytes@[5] == b5);
        CstIndex(bytes)
    }

    /// The index held.
    pub fn get(self) -> (r: usize)
        ensures
            r as nat == self.value(),
            r < cst_index_limit(),
    {
        proof {
            use_type_invariant(&self);
        }
        let b = self.0;
        let b0 = b[0] as u64;
        let b1 = b[1] as u64;
        let b2 = b[2] as u64;
        let b3 = b[3] as u64;
        let b4 = b[4] as u64;
        let b5 = b[5] as u64;
        assert(b0 < 256 && b1 < 256 && b2 < 256 && b3 < 256 && b4 < 256 && b5 < 256);
        let x: u64 = b0 + 0x100 * b1 + 0x1_0000 * b2 + 0x100_0000 * b3 + 0x1_0000_0000 * b4
            + 0x100_0000_0000 * b5;
        x as usize
    }
}

impl From<CstIndex> for usize {
    /// The index held.
    fn from(value: CstIndex) -> (r: usize) {
        value.get()
    }
}

impl vstd::std_specs::convert::FromSpecImpl<CstIndex> for usize {
    open spec fn obeys_from_spec() -> bool {
        true
    }

    open spec fn from_spec(v: CstIndex) -> usize {
        v.value() as usize
    }
}

/// A mark for a rule opened by position.
#[derive(Clone, Copy)]
pub struct MarkOpened(pub(crate) usize);

/// A mark for a closed rule, by position.
#[derive(Clone, Copy)]
pub struct MarkClosed(pub usize);

/// A saved length of a [`CstData`](crate::CstData) to truncate it back to.
#[derive(Clone, Copy)]
pub struct MarkTruncation {
    pub(crate) node_count: usize,
    pub(crate) token_count: usize,
}

impl MarkTruncation {
    /// Number of nodes kept when reverting.
    pub closed spec fn nodes_kept(self) -> nat {
        self.node_count as nat
    }

    /// Token count restored when reverting.
    pub closed spec fn tokens_kept(self) -> nat {
        self.token_count as nat
    }

    pub(crate) proof fn lemma_fields(self)
        ensures
            self.nodes_kept() == self.node_count,
            self.tokens_kept() == self.token_count,
    {
    }

    pub(crate) fn new(node_count: usize, token_count: usize) -> (r: MarkTruncation)
        ensures
            r.nodes_kept() == node_count,
            r.tokens_kept() == token_count,
    {
        MarkTruncation { node_count, token_count }
    }
}

} // verus!
