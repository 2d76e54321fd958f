//! Reader for the tagged binary container of `.llsm` analysis files.
use vstd::prelude::*;
use vstd::slice::slice_subrange;
use vstd::slice::slice_to_vec;

verus! {

broadcast use {vstd::seq::axiom_seq_subrange_decreases, vstd::seq::axiom_seq_index_decreases};

/// Unsigned little-endian value of the four bytes of `b` starting at `p`.
pub open spec fn le_u32_at(b: Seq<u8>, p: int) -> int {
    b[p] as int + 256 * (b[p + 1] as int) + 65536 * (b[p + 2] as int) + 16777216 * (b[p + 3] as int)
}

/// Two's-complement little-endian value of the four bytes of `b` starting at `p`.
pub open spec fn le_i32_at(b: Seq<u8>, p: int) -> int {
    let u = le_u32_at(b, p);
    if u < 0x8000_0000 { u } else { u - 0x1_0000_0000 }
}

/// `n` bytes starting at `p` lie inside `b`.
pub open spec fn fits(b: Seq<u8>, p: int, n: int) -> bool {
    0 <= p && 0 <= n && p + n <= b.len()
}

/// Mathematical form of a container node. Real numbers are kept as the
/// raw bit patterns of their IEEE-754 single-precision encoding.
pub enum SNode {
    Dict(Seq<(Seq<u8>, SNode)>),
    List(Seq<SNode>),
    F32(u32),
    Farr(Seq<u32>),
    Bytes(Seq<u8>),
    NodeArr(Seq<SNode>),
}

/// Sequence of `n` 32-bit words stored little-endian from `p` on.
pub open spec fn words_at(b: Seq<u8>, p: int, n: nat) -> Seq<u32> {
    Seq::new(n, |i: int| le_u32_at(b, p + 4 * i) as u32)
}

/// Table of `n` signed 32-bit offsets stored little-endian from `p` on.
pub open spec fn offsets_at(b: Seq<u8>, p: int, n: nat) -> Seq<int> {
    Seq::new(n, |i: int| le_i32_at(b, p + 4 * i))
}

/// Number of items of a node with dimensions `d1` by `d2`: zero when
/// either is zero, whatever the other; otherwise their product, provided
/// both are positive and it fits in a `usize`.
pub open spec fn dims_count(d1: int, d2: int) -> Option<nat> {
    if d1 == 0 || d2 == 0 {
        Some(0)
    } else if d1 < 0 || d2 < 0 || d1 * d2 > usize::MAX {
        None
    } else {
        Some((d1 * d2) as nat)
    }
}

/// Parse of one node at position `p`, nested at most `depth` levels deep.
/// The result is the node and the position just after what was read last.
pub open spec fn parse_at(b: Seq<u8>, p: int, depth: nat) -> Option<(SNode, int)>
    decreases depth, 1nat, 0nat,
{
    if depth == 0 || !fits(b, p, 1) {
        None
    } else {
        let tag = b[p];
        let q = p + 1;
        let d = (depth - 1) as nat;
        if tag == 1 {
            if !fits(b, q, 4) || le_i32_at(b, q) < 0 {
                None
            } else {
                match parse_entries(b, q + 4, le_i32_at(b, q) as nat, d) {
                    Some((es, e)) => Some((SNode::Dict(es), e)),
                    None => None,
                }
            }
        } else if tag == 2 {
            if !fits(b, q, 8) || dims_count(le_i32_at(b, q), le_i32_at(b, q + 4)) is None {
                None
            } else {
                match parse_list(b, q + 8, dims_count(le_i32_at(b, q), le_i32_at(b, q + 4)).unwrap(), d) {
                    Some((xs, e)) => Some((SNode::List(xs), e)),
                    None => None,
                }
            }
        } else if tag == 3 {
            if fits(b, q, 4) {
                Some((SNode::F32(le_u32_at(b, q) as u32), q + 4))
            } else {
                None
            }
        } else if tag == 5 {
            if !fits(b, q, 8) || dims_count(le_i32_at(b, q), le_i32_at(b, q + 4)) is None {
                None
            } else {
                let n = dims_count(le_i32_at(b, q), le_i32_at(b, q + 4)).unwrap() as int;
                if fits(b, q + 8, 4 * n) {
                    Some((SNode::Farr(words_at(b, q + 8, n as nat)), q + 8 + 4 * n))
                } else {
                    None
                }
            }
        } else if tag == 6 {
            if !fits(b, q, 4) || !fits(b, q + 4, le_i32_at(b, q)) {
                None
            } else {
                let n = le_i32_at(b, q);
                Some((SNode::Bytes(b.subrange(q + 4, q + 4 + n)), q + 4 + n))
            }
        } else if tag == 7 {
            if !fits(b, q, 4) || le_i32_at(b, q) < 0 || !fits(b, q + 4, 4 * (le_i32_at(b, q) + 1)) {
                None
            } else {
                let cnt = le_i32_at(b, q);
                let offs = offsets_at(b, q + 4, (cnt + 1) as nat);
                match parse_items(b, offs, cnt as nat, d, q + 4 + 4 * (cnt + 1)) {
                    Some((xs, e)) => Some((SNode::NodeArr(xs), e)),
                    None => None,
                }
            }
        } else {
            None
        }
    }
}

/// The first `count` key/value entries of a dictionary whose entries start at `s`.
pub open spec fn parse_entries(b: Seq<u8>, s: int, count: nat, d: nat) -> Option<(Seq<(Seq<u8>, SNode)>, int)>
    decreases d + 1, 0nat, count,
{
    if count == 0 {
        Some((Seq::empty(), s))
    } else {
        match parse_entries(b, s, (count - 1) as nat, d) {
            None => None,
            Some((es, p)) => {
                if !fits(b, p, 1) || !fits(b, p + 1, b[p] as int) {
                    None
                } else {
                    let kl = b[p] as int;
                    match parse_at(b, p + 1 + kl, d) {
                        None => None,
                        Some((v, e)) => Some((es.push((b.subrange(p + 1, p + 1 + kl), v)), e)),
                    }
                }
            }
        }
    }
}

/// The first `count` nodes of a list whose nodes follow each other from `s` on.
pub open spec fn parse_list(b: Seq<u8>, s: int, count: nat, d: nat) -> Option<(Seq<SNode>, int)>
    decreases d + 1, 0nat, count,
{
    if count == 0 {
        Some((Seq::empty(), s))
    } else {
        match parse_list(b, s, (count - 1) as nat, d) {
            None => None,
            Some((xs, p)) => match parse_at(b, p, d) {
                None => None,
                Some((x, e)) => Some((xs.push(x), e)),
            },
        }
    }
}

/// The first `count` nodes of an offset table: node `i` is read at `offs[i]`;
/// `s` is the position reached when no node has been read.
pub open spec fn parse_items(b: Seq<u8>, offs: Seq<int>, count: nat, d: nat, s: int) -> Option<(Seq<SNode>, int)>
    decreases d + 1, 0nat, count,
{
    if count == 0 {
        Some((Seq::empty(), s))
    } else {
        match parse_items(b, offs, (count - 1) as nat, d, s) {
            None => None,
            Some((xs, _p)) => {
                if offs[count - 1] < 0 {
                    None
                } else {
                    match parse_at(b, offs[count - 1], d) {
                        None => None,
                        Some((x, e)) => Some((xs.push(x), e)),
                    }
                }
            }
        }
    }
}

/// A read that succeeds within a nesting bound reads the same under any
/// larger bound: the bound only ever cuts off reads that go deeper.
pub proof fn lemma_parse_deeper(b: Seq<u8>, p: int, d: nat, d2: nat)
    requires
        d <= d2,
        parse_at(b, p, d) is Some,
    ensures
        parse_at(b, p, d2) == parse_at(b, p, d),
    decreases d, 1nat, 0nat,
{
    let tag = b[p];
    let q = p + 1;
    let e = (d - 1) as nat;
    let e2 = (d2 - 1) as nat;
    if tag == 1 {
        lemma_entries_deeper(b, q + 4, le_i32_at(b, q) as nat, e, e2);
    } else if tag == 2 {
        lemma_list_deeper(b, q + 8, dims_count(le_i32_at(b, q), le_i32_at(b, q + 4)).unwrap(), e, e2);
    } else if tag == 7 {
        let cnt = le_i32_at(b, q);
        lemma_items_deeper(b, offsets_at(b, q + 4, (cnt + 1) as nat), cnt as nat, e, e2, q + 4 + 4 * (cnt + 1));
    }
}

proof fn lemma_entries_deeper(b: Seq<u8>, s: int, count: nat, d: nat, d2: nat)
    requires
        d <= d2,
        parse_entries(b, s, count, d) is Some,
    ensures
        parse_entries(b, s, count, d2) == parse_entries(b, s, count, d),
    decreases d + 1, 0nat, count,
{
    if count > 0 {
        lemma_entries_deeper(b, s, (count - 1) as nat, d, d2);
        let (es, p) = parse_entries(b, s, (count - 1) as nat, d).unwrap();
        lemma_parse_deeper(b, p + 1 + b[p] as int, d, d2);
    }
}

proof fn lemma_list_deeper(b: Seq<u8>, s: int, count: nat, d: nat, d2: nat)
    requires
        d <= d2,
        parse_list(b, s, count, d) is Some,
    ensures
        parse_list(b, s, count, d2) == parse_list(b, s, count, d),
    decreases d + 1, 0nat, count,
{
    if count > 0 {
        lemma_list_deeper(b, s, (count - 1) as nat, d, d2);
        let (xs, p) = parse_list(b, s, (count - 1) as nat, d).unwrap();
        lemma_parse_deeper(b, p, d, d2);
    }
}

proof fn lemma_items_deeper(b: Seq<u8>, offs: Seq<int>, count: nat, d: nat, d2: nat, s: int)
    requires
        d <= d2,
        parse_items(b, offs, count, d, s) is Some,
    ensures
        parse_items(b, offs, count, d2, s) == parse_items(b, offs, count, d, s),
    decreases d + 1, 0nat, count,
{
    if count > 0 {
        lemma_items_deeper(b, offs, (count - 1) as nat, d, d2, s);
        lemma_parse_deeper(b, offs[count - 1], d, d2);
    }
}

proof fn lemma_entries_len(b: Seq<u8>, s: int, count: nat, d: nat)
    requires
        parse_entries(b, s, count, d) is Some,
    ensures
        parse_entries(b, s, count, d).unwrap().0.len() == count,
    decreases count,
{
    if count > 0 {
        lemma_entries_len(b, s, (count - 1) as nat, d);
    }
}

proof fn lemma_list_len(b: Seq<u8>, s: int, count: nat, d: nat)
    requires
        parse_list(b, s, count, d) is Some,
    ensures
        parse_list(b, s, count, d).unwrap().0.len() == count,
    decreases count,
{
    if count > 0 {
        lemma_list_len(b, s, (count - 1) as nat, d);
    }
}

proof fn lemma_items_read(b: Seq<u8>, offs: Seq<int>, count: nat, d: nat, s: int)
    requires
        count <= offs.len(),
    ensures
        parse_items(b, offs, count, d, s) is Some <==> (forall|i: int| 0 <= i < count ==> offs[i] >= 0
            && #[trigger] parse_at(b, offs[i], d) is Some),
        parse_items(b, offs, count, d, s) is Some ==> ({
            let xs = parse_items(b, offs, count, d, s).unwrap().0;
            &&& xs.len() == count
            &&& forall|i: int| 0 <= i < count ==> #[trigger] xs[i] == parse_at(b, offs[i], d).unwrap().0
        }),
    decreases count,
{
    if count > 0 {
        let c1 = (count - 1) as nat;
        lemma_items_read(b, offs, c1, d, s);
        if forall|i: int| 0 <= i < count ==> offs[i] >= 0 && #[trigger] parse_at(b, offs[i], d) is Some {
            assert(forall|i: int| 0 <= i < c1 ==> offs[i] >= 0 && #[trigger] parse_at(b, offs[i], d) is Some);
            assert(offs[c1 as int] >= 0 && parse_at(b, offs[c1 as int], d) is Some);
        }
        if parse_items(b, offs, count, d, s) is Some {
            assert forall|i: int| 0 <= i < count implies offs[i] >= 0 && #[trigger] parse_at(b, offs[i], d) is Some by {
                if i < c1 {
                    assert(offs[i] >= 0 && parse_at(b, offs[i], d) is Some);
                }
            }
        }
    }
}

/// Every node read holds exactly what its header says: a real is the word
/// after the tag; a byte string is the bytes its length covers; a dictionary
/// has as many entries as its count; a list and a real array have as many
/// items as the product of their two dimensions (the array's items being the
/// words that follow); an offset table has as many items as its count, item
/// `i` being the node read at the `i`-th offset.
pub proof fn lemma_node_contents(b: Seq<u8>, p: int, d: nat)
    requires
        parse_at(b, p, d) is Some,
    ensures
        match parse_at(b, p, d).unwrap().0 {
            SNode::F32(x) => b[p] == 3 && x == le_u32_at(b, p + 1),
            SNode::Bytes(bs) => b[p] == 6 && bs == b.subrange(p + 5, p + 5 + le_i32_at(b, p + 1)),
            SNode::Dict(es) => b[p] == 1 && es.len() == le_i32_at(b, p + 1),
            SNode::List(xs) => b[p] == 2 && xs.len() == le_i32_at(b, p + 1) * le_i32_at(b, p + 5),
            SNode::Farr(ws) => b[p] == 5 && ws.len() == le_i32_at(b, p + 1) * le_i32_at(b, p + 5)
                && (forall|i: int| 0 <= i < ws.len() ==> #[trigger] ws[i] == le_u32_at(b, p + 9 + 4 * i)),
            SNode::NodeArr(xs) => b[p] == 7 && d > 0 && xs.len() == le_i32_at(b, p + 1)
                && (forall|i: int| 0 <= i < xs.len() ==> le_i32_at(b, p + 5 + 4 * i) >= 0
                    && #[trigger] parse_at(b, le_i32_at(b, p + 5 + 4 * i), (d - 1) as nat) is Some
                    && parse_at(b, le_i32_at(b, p + 5 + 4 * i), (d - 1) as nat).unwrap().0 == xs[i]),
        },
{
    let tag = b[p];
    let q = p + 1;
    let e = (d - 1) as nat;
    let d1 = le_i32_at(b, q);
    let d2 = le_i32_at(b, q + 4);
    if d1 == 0 || d2 == 0 {
        assert(d1 * d2 == 0) by (nonlinear_arith)
            requires
                d1 == 0 || d2 == 0;
    }
    if tag == 1 {
        lemma_entries_len(b, q + 4, le_i32_at(b, q) as nat, e);
    } else if tag == 2 {
        lemma_list_len(b, q + 8, dims_count(le_i32_at(b, q), le_i32_at(b, q + 4)).unwrap(), e);
    } else if tag == 5 {
        let n = dims_count(d1, d2).unwrap() as int;
        assert(n == d1 * d2);
        assert(q + 8 == p + 9);
    } else if tag == 7 {
        let cnt = le_i32_at(b, q);
        let offs = offsets_at(b, q + 4, (cnt + 1) as nat);
        lemma_items_read(b, offs, cnt as nat, e, q + 4 + 4 * (cnt + 1));
        let xs = parse_items(b, offs, cnt as nat, e, q + 4 + 4 * (cnt + 1)).unwrap().0;
        assert forall|i: int| 0 <= i < xs.len() implies le_i32_at(b, p + 5 + 4 * i) >= 0
            && #[trigger] parse_at(b, le_i32_at(b, p + 5 + 4 * i), e) is Some
            && parse_at(b, le_i32_at(b, p + 5 + 4 * i), e).unwrap().0 == xs[i] by {
            assert(offs[i] == le_i32_at(b, q + 4 + 4 * i));
        }
    }
}

/// An offset table whose count is not negative, whose count-plus-one
/// offsets are all in the buffer and whose first count offsets all lead to
/// nodes that can be read, is read (within one more level of nesting).
pub proof fn lemma_node_table_read(b: Seq<u8>, p: int, d: nat)
    requires
        0 <= p,
        p + 5 <= b.len(),
        b[p] == 7,
        le_i32_at(b, p + 1) >= 0,
        p + 5 + 4 * (le_i32_at(b, p + 1) + 1) <= b.len(),
        forall|i: int| 0 <= i < le_i32_at(b, p + 1) ==> le_i32_at(b, p + 5 + 4 * i) >= 0
            && #[trigger] parse_at(b, le_i32_at(b, p + 5 + 4 * i), d) is Some,
    ensures
        parse_at(b, p, d + 1) is Some,
{
    let q = p + 1;
    let cnt = le_i32_at(b, q);
    let offs = offsets_at(b, q + 4, (cnt + 1) as nat);
    assert forall|i: int| 0 <= i < cnt implies offs[i] >= 0 && #[trigger] parse_at(b, offs[i], d) is Some by {
        assert(offs[i] == le_i32_at(b, p + 5 + 4 * i));
        assert(parse_at(b, le_i32_at(b, p + 5 + 4 * i), d) is Some);
    }
    lemma_items_read(b, offs, cnt as nat, d, q + 4 + 4 * (cnt + 1));
}

/// The values of a sequence of 32-bit integers.
pub open spec fn ints(s: Seq<i32>) -> Seq<int> {
    s.map_values(|x: i32| x as int)
}

/// A node of the container, as built by [`parse_node`]. A dictionary keeps
/// its entries in file order with their raw key bytes (a lookup takes the
/// last entry with the key, see [`as_dict`]); reals are kept as the bit
/// patterns of their IEEE-754 single-precision values.
#[derive(Debug)]
pub enum Node {
    Dict(Vec<(Vec<u8>, Node)>),
    List(Vec<Node>),
    F32(u32),
    Farr(Vec<u32>),
    Bytes(Vec<u8>),
    NodeArr(Vec<Node>),
}

impl Node {
    /// Mathematical form of the node.
    pub open spec fn model(self) -> SNode
        decreases self,
    {
        match self {
            Node::Dict(es) => SNode::Dict(entries_model(es@)),
            Node::List(xs) => SNode::List(nodes_model(xs@)),
            Node::F32(x) => SNode::F32(x),
            Node::Farr(xs) => SNode::Farr(xs@),
            Node::Bytes(xs) => SNode::Bytes(xs@),
            Node::NodeArr(xs) => SNode::NodeArr(nodes_model(xs@)),
        }
    }
}

/// Mathematical forms of a sequence of nodes.
pub open spec fn nodes_model(s: Seq<Node>) -> Seq<SNode>
    decreases s,
{
    if s.len() == 0 {
        Seq::empty()
    } else {
        nodes_model(s.subrange(0, s.len() - 1)).push(s[s.len() - 1].model())
    }
}

/// Mathematical forms of dictionary entries.
pub open spec fn entries_model(s: Seq<(Vec<u8>, Node)>) -> Seq<(Seq<u8>, SNode)>
    decreases s,
{
    if s.len() == 0 {
        Seq::empty()
    } else {
        entries_model(s.subrange(0, s.len() - 1)).push((s[s.len() - 1].0@, s[s.len() - 1].1.model()))
    }
}

/// A read position inside a byte buffer.
pub struct Cursor<'a> {
    pub buf: &'a [u8],
    pub pos: usize,
}

impl<'a> Cursor<'a> {
    /// A cursor at the start of `buf`.
    pub fn new(buf: &'a [u8]) -> (r: Self)
        ensures
            r.buf@ == buf@,
            r.pos == 0,
    {
        Cursor { buf, pos: 0 }
    }

    /// Reads one byte; fails, without moving, at the end of the buffer.
    pub fn u8(&mut self) -> (r: Option<u8>)
        ensures
            final(self).buf@ == old(self).buf@,
            match r {
                Some(v) => fits(old(self).buf@, old(self).pos as int, 1) && v == old(self).buf@[old(self).pos as int]
                    && final(self).pos == old(self).pos + 1,
                None => !fits(old(self).buf@, old(self).pos as int, 1) && final(self).pos == old(self).pos,
            },
    {
        if self.pos < self.buf.len() {
            let v: u8 = self.buf[self.pos];
            self.pos = self.pos + 1;
            Some(v)
        } else {
            None
        }
    }

    /// Reads a little-endian two's-complement 32-bit integer; fails, without
    /// moving, when fewer than four bytes are left.
    pub fn i32(&mut self) -> (r: Option<i32>)
        ensures
            final(self).buf@ == old(self).buf@,
            match r {
                Some(v) => fits(old(self).buf@, old(self).pos as int, 4)
                    && v as int == le_i32_at(old(self).buf@, old(self).pos as int)
                    && final(self).pos == old(self).pos + 4,
                None => !fits(old(self).buf@, old(self).pos as int, 4) && final(self).pos == old(self).pos,
            },
    {
        match self.word() {
            Some(u) => {
                if u < 0x8000_0000 {
                    Some(u as i32)
                } else {
                    let s: i64 = u as i64 - 0x1_0000_0000i64;
                    Some(s as i32)
                }
            },
            None => None,
        }
    }

    /// Reads the four-byte little-endian bit pattern of an IEEE-754
    /// single-precision number; fails, without moving, when fewer than four
    /// bytes are left.
    pub fn f32_bits(&mut self) -> (r: Option<u32>)
        ensures
            final(self).buf@ == old(self).buf@,
            match r {
                Some(v) => fits(old(self).buf@, old(self).pos as int, 4)
                    && v as int == le_u32_at(old(self).buf@, old(self).pos as int)
                    && final(self).pos == old(self).pos + 4,
                None => !fits(old(self).buf@, old(self).pos as int, 4) && final(self).pos == old(self).pos,
            },
    {
        self.word()
    }

    fn word(&mut self) -> (r: Option<u32>)
        ensures
            final(self).buf@ == old(self).buf@,
            match r {
                Some(v) => fits(old(self).buf@, old(self).pos as int, 4)
                    && v as int == le_u32_at(old(self).buf@, old(self).pos as int)
                    && final(self).pos == old(self).pos + 4,
                None => !fits(old(self).buf@, old(self).pos as int, 4) && final(self).pos == old(self).pos,
            },
    {
        if self.pos <= self.buf.len() && self.buf.len() - self.pos >= 4 {
            let p: usize = self.pos;
            let v: u32 = self.buf[p] as u32 + 256 * (self.buf[p + 1] as u32) + 65536 * (self.buf[p + 2] as u32)
                + 16777216 * (self.buf[p + 3] as u32);
            self.pos = p + 4;
            Some(v)
        } else {
            None
        }
    }

    /// Takes the next `n` bytes; fails, without moving, when fewer are left.
    pub fn take(&mut self, n: usize) -> (r: Option<&'a [u8]>)
        ensures
            final(self).buf@ == old(self).buf@,
            match r {
                Some(s) => fits(old(self).buf@, old(self).pos as int, n as int)
                    && s@ == old(self).buf@.subrange(old(self).pos as int, old(self).pos + n)
                    && final(self).pos == old(self).pos + n,
                None => !fits(old(self).buf@, old(self).pos as int, n as int) && final(self).pos == old(self).pos,
            },
    {
        if self.pos <= self.buf.len() && self.buf.len() - self.pos >= n {
            let p: usize = self.pos;
            let s: &'a [u8] = slice_subrange(self.buf, p, p + n);
            self.pos = p + n;
            Some(s)
        } else {
            None
        }
    }

    /// Moves to position `p`.
    pub fn seek(&mut self, p: usize)
        ensures
            final(self).buf@ == old(self).buf@,
            final(self).pos == p,
    {
        self.pos = p;
    }
}

proof fn lemma_entries_none(b: Seq<u8>, s: int, k: nat, j: nat, d: nat)
    requires
        k <= j,
        parse_entries(b, s, k, d) is None,
    ensures
        parse_entries(b, s, j, d) is None,
    decreases j - k,
{
    if k < j {
        lemma_entries_none(b, s, k, (j - 1) as nat, d);
    }
}

proof fn lemma_list_none(b: Seq<u8>, s: int, k: nat, j: nat, d: nat)
    requires
        k <= j,
        parse_list(b, s, k, d) is None,
    ensures
        parse_list(b, s, j, d) is None,
    decreases j - k,
{
    if k < j {
        lemma_list_none(b, s, k, (j - 1) as nat, d);
    }
}

proof fn lemma_items_none(b: Seq<u8>, offs: Seq<int>, k: nat, j: nat, d: nat, s: int)
    requires
        k <= j,
        parse_items(b, offs, k, d, s) is None,
    ensures
        parse_items(b, offs, j, d, s) is None,
    decreases j - k,
{
    if k < j {
        lemma_items_none(b, offs, k, (j - 1) as nat, d, s);
    }
}

/// Reads `n` dictionary entries (a length byte, that many key bytes, a node).
fn parse_dict_entries(c: &mut Cursor, n: usize, d: usize) -> (r: Option<Vec<(Vec<u8>, Node)>>)
    ensures
        final(c).buf@ == old(c).buf@,
        match parse_entries(old(c).buf@, old(c).pos as int, n as nat, d as nat) {
            Some((es, e)) => r matches Some(m) && entries_model(m@) == es && final(c).pos == e,
            None => r is None,
        },
    decreases d + 1, 0nat,
{
    let ghost b = c.buf@;
    let ghost s = c.pos as int;
    let mut m: Vec<(Vec<u8>, Node)> = Vec::new();
    let mut i: usize = 0;
    while i < n
        invariant
            c.buf@ == b,
            b == old(c).buf@,
            s == old(c).pos as int,
            i <= n,
            parse_entries(b, s, i as nat, d as nat) == Some((entries_model(m@), c.pos as int)),
        decreases n - i,
    {
        let ghost m0 = m@;
        let kl: u8 = match c.u8() {
            Some(k) => k,
            None => {
                proof { lemma_entries_none(b, s, (i + 1) as nat, n as nat, d as nat); }
                return None;
            },
        };
        let kb: &[u8] = match c.take(kl as usize) {
            Some(k) => k,
            None => {
                proof { lemma_entries_none(b, s, (i + 1) as nat, n as nat, d as nat); }
                return None;
            },
        };
        let v: Node = match parse_node(c, d) {
            Some(v) => v,
            None => {
                proof { lemma_entries_none(b, s, (i + 1) as nat, n as nat, d as nat); }
                return None;
            },
        };
        let key: Vec<u8> = slice_to_vec(kb);
        m.push((key, v));
        proof {
            assert(m@.subrange(0, m@.len() - 1) =~= m0);
        }
        i = i + 1;
    }
    Some(m)
}

/// Reads `n` nodes stored one after the other.
fn parse_list_nodes(c: &mut Cursor, n: usize, d: usize) -> (r: Option<Vec<Node>>)
    ensures
        final(c).buf@ == old(c).buf@,
        match parse_list(old(c).buf@, old(c).pos as int, n as nat, d as nat) {
            Some((xs, e)) => r matches Some(v) && nodes_model(v@) == xs && final(c).pos == e,
            None => r is None,
        },
    decreases d + 1, 0nat,
{
    let ghost b = c.buf@;
    let ghost s = c.pos as int;
    let mut v: Vec<Node> = Vec::new();
    let mut i: usize = 0;
    while i < n
        invariant
            c.buf@ == b,
            b == old(c).buf@,
            s == old(c).pos as int,
            i <= n,
            parse_list(b, s, i as nat, d as nat) == Some((nodes_model(v@), c.pos as int)),
        decreases n - i,
    {
        let ghost v0 = v@;
        let x: Node = match parse_node(c, d) {
            Some(x) => x,
            None => {
                proof { lemma_list_none(b, s, (i + 1) as nat, n as nat, d as nat); }
                return None;
            },
        };
        v.push(x);
        proof {
            assert(v@.subrange(0, v@.len() - 1) =~= v0);
        }
        i = i + 1;
    }
    Some(v)
}

/// Reads the nodes of an offset table: node `i` at `offs[i]`, for `i < cnt`.
fn parse_item_nodes(c: &mut Cursor, offs: &Vec<i32>, cnt: usize, d: usize) -> (r: Option<Vec<Node>>)
    requires
        cnt <= offs@.len(),
    ensures
        final(c).buf@ == old(c).buf@,
        match parse_items(old(c).buf@, ints(offs@), cnt as nat, d as nat, old(c).pos as int) {
            Some((xs, e)) => r matches Some(v) && nodes_model(v@) == xs && final(c).pos == e,
            None => r is None,
        },
    decreases d + 1, 0nat,
{
    let ghost b = c.buf@;
    let ghost s = c.pos as int;
    let ghost o = ints(offs@);
    let mut v: Vec<Node> = Vec::new();
    let mut i: usize = 0;
    while i < cnt
        invariant
            c.buf@ == b,
            b == old(c).buf@,
            s == old(c).pos as int,
            i <= cnt,
            cnt <= offs@.len(),
            o == ints(offs@),
            parse_items(b, o, i as nat, d as nat, s) == Some((nodes_model(v@), c.pos as int)),
        decreases cnt - i,
    {
        let ghost v0 = v@;
        let off: i32 = offs[i];
        assert(o[i as int] == off as int);
        if off < 0 {
            proof { lemma_items_none(b, o, (i + 1) as nat, cnt as nat, d as nat, s); }
            return None;
        }
        c.seek(off as usize);
        let x: Node = match parse_node(c, d) {
            Some(x) => x,
            None => {
                proof { lemma_items_none(b, o, (i + 1) as nat, cnt as nat, d as nat, s); }
                return None;
            },
        };
        v.push(x);
        proof {
            assert(v@.subrange(0, v@.len() - 1) =~= v0);
        }
        i = i + 1;
    }
    Some(v)
}

/// Reads `n` 32-bit little-endian words.
fn read_words(c: &mut Cursor, n: usize) -> (r: Option<Vec<u32>>)
    requires
        old(c).pos <= old(c).buf@.len(),
    ensures
        final(c).buf@ == old(c).buf@,
        fits(old(c).buf@, old(c).pos as int, 4 * n) ==> (r matches Some(v)
            && v@ == words_at(old(c).buf@, old(c).pos as int, n as nat) && final(c).pos == old(c).pos + 4 * n),
        !fits(old(c).buf@, old(c).pos as int, 4 * n) ==> r is None,
{
    let ghost b = c.buf@;
    let ghost s = c.pos as int;
    let mut v: Vec<u32> = Vec::new();
    let mut i: usize = 0;
    while i < n
        invariant
            c.buf@ == b,
            b == old(c).buf@,
            s == old(c).pos as int,
            i <= n,
            c.pos == s + 4 * i,
            fits(b, s, 4 * i),
            v@ =~= words_at(b, s, i as nat),
        decreases n - i,
    {
        match c.f32_bits() {
            Some(x) => {
                v.push(x);
                i = i + 1;
            },
            None => {
                return None;
            },
        }
    }
    Some(v)
}

/// Reads the table of `n` signed 32-bit offsets.
fn read_offsets(c: &mut Cursor, n: usize) -> (r: Option<Vec<i32>>)
    requires
        old(c).pos <= old(c).buf@.len(),
    ensures
        final(c).buf@ == old(c).buf@,
        fits(old(c).buf@, old(c).pos as int, 4 * n) ==> (r matches Some(v)
            && ints(v@) == offsets_at(old(c).buf@, old(c).pos as int, n as nat)
            && final(c).pos == old(c).pos + 4 * n),
        !fits(old(c).buf@, old(c).pos as int, 4 * n) ==> r is None,
{
    let ghost b = c.buf@;
    let ghost s = c.pos as int;
    let mut v: Vec<i32> = Vec::new();
    let mut i: usize = 0;
    while i < n
        invariant
            c.buf@ == b,
            b == old(c).buf@,
            s == old(c).pos as int,
            i <= n,
            c.pos == s + 4 * i,
            fits(b, s, 4 * i),
            ints(v@) =~= offsets_at(b, s, i as nat),
        decreases n - i,
    {
        let ghost v0 = v@;
        match c.i32() {
            Some(x) => {
                v.push(x);
                proof {
                    assert(ints(v@) =~= ints(v0).push(x as int));
                }
                i = i + 1;
            },
            None => {
                return None;
            },
        }
    }
    Some(v)
}

/// Reads one node, nested at most `depth` levels deep (see [`parse_at`]).
pub fn parse_node(c: &mut Cursor, depth: usize) -> (r: Option<Node>)
    ensures
        final(c).buf@ == old(c).buf@,
        match parse_at(old(c).buf@, old(c).pos as int, depth as nat) {
            Some((s, e)) => r matches Some(n) && n.model() == s && final(c).pos == e,
            None => r is None,
        },
    decreases depth, 1nat,
{
    if depth == 0 {
        return None;
    }
    let d: usize = depth - 1;
    let tag: u8 = match c.u8() {
        Some(t) => t,
        None => return None,
    };
    if tag == 1 {
        let n: i32 = match c.i32() {
            Some(n) => n,
            None => return None,
        };
        if n < 0 {
            return None;
        }
        match parse_dict_entries(c, n as usize, d) {
            Some(m) => Some(Node::Dict(m)),
            None => None,
        }
    } else if tag == 2 || tag == 5 {
        let d1: i32 = match c.i32() {
            Some(x) => x,
            None => return None,
        };
        let d2: i32 = match c.i32() {
            Some(x) => x,
            None => return None,
        };
        let count: usize = if d1 == 0 || d2 == 0 {
            0
        } else if d1 < 0 || d2 < 0 {
            return None;
        } else {
            match (d1 as usize).checked_mul(d2 as usize) {
                Some(k) => k,
                None => return None,
            }
        };
        if tag == 2 {
            match parse_list_nodes(c, count, d) {
                Some(v) => Some(Node::List(v)),
                None => None,
            }
        } else {
            match read_words(c, count) {
                Some(v) => Some(Node::Farr(v)),
                None => None,
            }
        }
    } else if tag == 3 {
        match c.f32_bits() {
            Some(x) => Some(Node::F32(x)),
            None => None,
        }
    } else if tag == 6 {
        let n: i32 = match c.i32() {
            Some(n) => n,
            None => return None,
        };
        if n < 0 {
            return None;
        }
        match c.take(n as usize) {
            Some(s) => Some(Node::Bytes(slice_to_vec(s))),
            None => None,
        }
    } else if tag == 7 {
        let cnt: i32 = match c.i32() {
            Some(n) => n,
            None => return None,
        };
        if cnt < 0 {
            return None;
        }
        let cnt: usize = cnt as usize;
        let offs: Vec<i32> = match read_offsets(c, cnt + 1) {
            Some(o) => o,
            None => return None,
        };
        assert(ints(offs@).len() == cnt + 1);
        assert(offs@.len() == ints(offs@).len());
        match parse_item_nodes(c, &offs, cnt, d) {
            Some(v) => Some(Node::NodeArr(v)),
            None => None,
        }
    } else {
        None
    }
}

proof fn lemma_nodes_model(s: Seq<Node>)
    ensures
        nodes_model(s).len() == s.len(),
        forall|j: int| 0 <= j < s.len() ==> #[trigger] nodes_model(s)[j] == s[j].model(),
    decreases s.len(),
{
    if s.len() > 0 {
        lemma_nodes_model(s.subrange(0, s.len() - 1));
    }
}

proof fn lemma_entries_model(s: Seq<(Vec<u8>, Node)>)
    ensures
        entries_model(s).len() == s.len(),
        forall|j: int| 0 <= j < s.len() ==> #[trigger] entries_model(s)[j] == (s[j].0@, s[j].1.model()),
    decreases s.len(),
{
    if s.len() > 0 {
        lemma_entries_model(s.subrange(0, s.len() - 1));
    }
}

/// Value of the last of the first `i` entries whose key is `k`.
pub open spec fn lookup_upto(es: Seq<(Seq<u8>, SNode)>, k: Seq<u8>, i: int) -> Option<SNode>
    decreases i,
{
    if i <= 0 {
        None
    } else if es[i - 1].0 == k {
        Some(es[i - 1].1)
    } else {
        lookup_upto(es, k, i - 1)
    }
}

/// Value stored under key `k` in dictionary node `n`: the entry read last
/// wins, as when entries are inserted one after the other into a map.
pub open spec fn node_get(n: SNode, k: Seq<u8>) -> Option<SNode> {
    match n {
        SNode::Dict(es) => lookup_upto(es, k, es.len() as int),
        _ => None,
    }
}

/// Whether two byte strings are equal.
fn bytes_eq(a: &[u8], b: &[u8]) -> (r: bool)
    ensures
        r == (a@ == b@),
{
    if a.len() != b.len() {
        return false;
    }
    let mut i: usize = 0;
    while i < a.len()
        invariant
            a@.len() == b@.len(),
            i <= a@.len(),
            forall|j: int| 0 <= j < i ==> a@[j] == b@[j],
        decreases a.len() - i,
    {
        if a[i] != b[i] {
            return false;
        }
        i = i + 1;
    }
    assert(a@ =~= b@);
    true
}

/// The value under key `k` when `n` is a dictionary.
pub fn as_dict<'a>(n: &'a Node, k: &[u8]) -> (r: Option<&'a Node>)
    ensures
        match node_get(n.model(), k@) {
            Some(v) => r matches Some(x) && x.model() == v,
            None => r is None,
        },
{
    match n {
        Node::Dict(es) => {
            proof {
                lemma_entries_model(es@);
            }
            let ghost m = entries_model(es@);
            let mut i: usize = es.len();
            while i > 0
                invariant
                    i <= es@.len(),
                    m == entries_model(es@),
                    m.len() == es@.len(),
                    forall|j: int| 0 <= j < es@.len() ==> #[trigger] m[j] == (es@[j].0@, es@[j].1.model()),
                    node_get(n.model(), k@) == lookup_upto(m, k@, i as int),
                decreases i,
            {
                if bytes_eq(es[i - 1].0.as_slice(), k) {
                    assert(m[i - 1] == (es@[i - 1].0@, es@[i - 1].1.model()));
                    return Some(&es[i - 1].1);
                }
                assert(m[i - 1] == (es@[i - 1].0@, es@[i - 1].1.model()));
                i = i - 1;
            }
            None
        },
        _ => None,
    }
}

/// The raw bits of a real-number node.
pub open spec fn real_of(n: Option<SNode>) -> Option<u32> {
    match n {
        Some(SNode::F32(x)) => Some(x),
        _ => None,
    }
}

/// The bit pattern held by `n` when it is a real-number node.
pub fn as_f32(n: &Node) -> (r: Option<u32>)
    ensures
        r == real_of(Some(n.model())),
{
    match n {
        Node::F32(v) => Some(*v),
        _ => None,
    }
}

/// Key of the per-frame fundamental frequency.
pub open spec fn key_f0() -> Seq<u8> {
    seq![0x5fu8, 0x34u8, 0x30u8]
}

/// Key of the frame table.
pub open spec fn key_frames() -> Seq<u8> {
    seq![0x5fu8, 0x33u8, 0x61u8]
}

/// Key of the analysis settings.
pub open spec fn key_settings() -> Seq<u8> {
    seq![0x5fu8, 0x33u8, 0x35u8]
}

/// Key of the hop length inside the analysis settings.
pub open spec fn key_hop() -> Seq<u8> {
    seq![0x5fu8, 0x63u8]
}

/// Key of the total duration.
pub open spec fn key_duration() -> Seq<u8> {
    seq![0x64u8, 0x75u8, 0x72u8, 0x61u8, 0x74u8, 0x69u8, 0x6fu8, 0x6eu8]
}

/// Bit pattern of a frame's fundamental frequency: the first four bytes of
/// its byte-string entry under the frequency key, read little-endian, or the
/// pattern of zero when the frame holds no such entry of at least four bytes.
pub open spec fn frame_f0_bits(fr: SNode) -> u32 {
    match node_get(fr, key_f0()) {
        Some(SNode::Bytes(bs)) => if bs.len() >= 4 { le_u32_at(bs, 0) as u32 } else { 0 },
        _ => 0,
    }
}

/// Bit pattern of the fundamental frequency stored in frame `fr`.
pub fn frame_f0(fr: &Node) -> (r: u32)
    ensures
        r == frame_f0_bits(fr.model()),
{
    let key: Vec<u8> = vec![0x5fu8, 0x34u8, 0x30u8];
    assert(key@ =~= key_f0());
    match as_dict(fr, key.as_slice()) {
        Some(Node::Bytes(b)) => {
            if b.len() >= 4 {
                b[0] as u32 + 256 * (b[1] as u32) + 65536 * (b[2] as u32) + 16777216 * (b[3] as u32)
            } else {
                0
            }
        },
        _ => 0,
    }
}

/// The five bytes that open an analysis file: 0x04 and "data".
pub open spec fn llsm_magic() -> Seq<u8> {
    seq![4u8, 0x64u8, 0x61u8, 0x74u8, 0x61u8]
}

/// Root node of an analysis file: the node read right after the opening
/// bytes. Offset tables may point back into enclosing nodes, so the read is
/// bounded by the file's length in nesting levels: a read that ends never has
/// two nodes starting at the same position open at once (the inner one would
/// repeat the outer one forever), so it nests no deeper than there are
/// positions in the file, and only reads that never end are cut off.
pub open spec fn llsm_root(b: Seq<u8>) -> Option<SNode> {
    if b.len() >= 5 && b.subrange(0, 5) == llsm_magic() {
        match parse_at(b, 5, b.len()) {
            Some((r, _)) => Some(r),
            None => None,
        }
    } else {
        None
    }
}

/// The frames of an analysis file: the non-empty offset table under the frame key.
pub open spec fn llsm_frames(root: SNode) -> Option<Seq<SNode>> {
    match node_get(root, key_frames()) {
        Some(SNode::NodeArr(fs)) => if fs.len() > 0 { Some(fs) } else { None },
        _ => None,
    }
}

/// Hop length entry (bit pattern) found in the analysis settings, if any.
pub open spec fn llsm_hop(root: SNode) -> Option<u32> {
    match node_get(root, key_settings()) {
        Some(settings) => real_of(node_get(settings, key_hop())),
        None => None,
    }
}

/// Duration entry (bit pattern), if any.
pub open spec fn llsm_duration(root: SNode) -> Option<u32> {
    real_of(node_get(root, key_duration()))
}

/// What the voicing decision needs from an analysis file.
pub struct LlsmAnalysis {
    /// Bit pattern of each frame's fundamental frequency, in frame order.
    pub frame_f0_bits: Vec<u32>,
    /// Bit pattern of the hop length (seconds) stored in the settings.
    pub hop_bits: Option<u32>,
    /// Bit pattern of the total duration (seconds).
    pub duration_bits: Option<u32>,
}

/// Reads the frame table and timing of an analysis file's bytes. Fails when
/// the opening bytes are wrong, the root node cannot be read, or the root
/// holds no non-empty frame table.
pub fn parse_llsm(bytes: &[u8]) -> (r: Option<LlsmAnalysis>)
    ensures
        match llsm_root(bytes@) {
            None => r is None,
            Some(root) => match llsm_frames(root) {
                None => r is None,
                Some(fs) => r matches Some(a) && a.frame_f0_bits@ == fs.map_values(|f: SNode| frame_f0_bits(f))
                    && a.hop_bits == llsm_hop(root) && a.duration_bits == llsm_duration(root),
            },
        },
{
    if bytes.len() < 5 || bytes[0] != 4 || bytes[1] != 0x64 || bytes[2] != 0x61 || bytes[3] != 0x74 || bytes[4] != 0x61 {
        proof {
            if bytes@.len() >= 5 {
                assert(bytes@.subrange(0, 5)[0] == bytes@[0]);
                assert(bytes@.subrange(0, 5)[1] == bytes@[1]);
                assert(bytes@.subrange(0, 5)[2] == bytes@[2]);
                assert(bytes@.subrange(0, 5)[3] == bytes@[3]);
                assert(bytes@.subrange(0, 5)[4] == bytes@[4]);
            }
        }
        return None;
    }
    assert(bytes@.subrange(0, 5) =~= llsm_magic());
    let mut c: Cursor = Cursor::new(bytes);
    c.seek(5);
    let root: Node = match parse_node(&mut c, bytes.len()) {
        Some(r) => r,
        None => return None,
    };
    let k_frames: Vec<u8> = vec![0x5fu8, 0x33u8, 0x61u8];
    assert(k_frames@ =~= key_frames());
    let frames: &Vec<Node> = match as_dict(&root, k_frames.as_slice()) {
        Some(Node::NodeArr(f)) => f,
        _ => return None,
    };
    proof {
        lemma_nodes_model(frames@);
    }
    if frames.len() == 0 {
        return None;
    }
    let ghost fs = nodes_model(frames@);
    let mut f0s: Vec<u32> = Vec::new();
    let mut i: usize = 0;
    while i < frames.len()
        invariant
            fs == nodes_model(frames@),
            fs.len() == frames@.len(),
            forall|j: int| 0 <= j < frames@.len() ==> #[trigger] fs[j] == frames@[j].model(),
            i <= frames@.len(),
            f0s@ =~= fs.subrange(0, i as int).map_values(|f: SNode| frame_f0_bits(f)),
        decreases frames.len() - i,
    {
        let x: u32 = frame_f0(&frames[i]);
        f0s.push(x);
        i = i + 1;
    }
    assert(fs.subrange(0, fs.len() as int) =~= fs);
    let k_settings: Vec<u8> = vec![0x5fu8, 0x33u8, 0x35u8];
    assert(k_settings@ =~= key_settings());
    let k_hop: Vec<u8> = vec![0x5fu8, 0x63u8];
    assert(k_hop@ =~= key_hop());
    let hop_bits: Option<u32> = match as_dict(&root, k_settings.as_slice()) {
        Some(settings) => match as_dict(settings, k_hop.as_slice()) {
            Some(h) => as_f32(h),
            None => None,
        },
        None => None,
    };
    let k_duration: Vec<u8> = vec![0x64u8, 0x75u8, 0x72u8, 0x61u8, 0x74u8, 0x69u8, 0x6fu8, 0x6eu8];
    assert(k_duration@ =~= key_duration());
    let duration_bits: Option<u32> = match as_dict(&root, k_duration.as_slice()) {
        Some(dn) => as_f32(dn),
        None => None,
    };
    Some(LlsmAnalysis { frame_f0_bits: f0s, hop_bits, duration_bits })
}

} // verus!
