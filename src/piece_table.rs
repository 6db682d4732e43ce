use crate::arena::Arena;
use crate::buffer::{
    Buffer, BufferPosition, lemma_full_range_counts, lemma_line_starts_shape, lemma_split_range,
    line_starts,
};
use vstd::prelude::*;
use vstd::string::StringExecFns;

verus! {

/// Documents as an original buffer, an append buffer and a tree of pieces
/// over them, ordered as the document reads.
pub struct PieceTable {
    /// Piece tree root node index
    root_index: usize,
    original_buffer: Buffer,
    append_buffer: Buffer,
    /// Arena of pieces, first piece is an empty sentinel piece
    pieces: Arena<Piece>,
    /// Arena of nodes, first node is an empty sentinel node
    nodes: Arena<Node>,
    /// A bound on the depth of the tree
    height: Ghost<nat>,
}

/// A node of the piece tree, with the counts of its whole left subtree.
#[derive(Debug)]
pub struct Node {
    pub piece_index: usize,
    /// Balancing priority; nodes are made with 0 and insertion does not rotate
    pub rank: usize,
    /// Count of linebreaks in left subtree
    pub left_linebreaks: usize,
    /// Count of chars in left subtree
    pub left_chars: usize,
    /// Left 0: the tree is only walked down from its root
    pub parent_index: usize,
    pub left_index: usize,
    pub right_index: usize,
}

/// An inclusive range of positions inside one of the two buffers.
#[derive(PartialEq, Debug)]
pub struct Piece {
    /// Start position of piece (inclusive)
    pub start: BufferPosition,
    /// End position of piece (inclusive)
    pub end: BufferPosition,
    pub append: bool,
}

/// Why an edit was refused.
#[derive(Copy, Clone, PartialEq, Eq, Debug, Structural)]
pub enum EditError {
    /// The offset lies past the end of the document.
    OffsetOutOfRange,
}

/// Piece table model
impl PieceTable {
    /// A bound on the depth of the tree.
    pub closed spec fn depth_bound(&self) -> nat {
        self.height@
    }

    pub closed spec fn root(&self) -> usize {
        self.root_index
    }

    pub closed spec fn original(&self) -> Buffer {
        self.original_buffer
    }

    pub closed spec fn appended(&self) -> Buffer {
        self.append_buffer
    }

    pub closed spec fn piece_arena(&self) -> Arena<Piece> {
        self.pieces
    }

    pub closed spec fn node_arena(&self) -> Arena<Node> {
        self.nodes
    }

    /// The buffer that `p` ranges over.
    pub open spec fn buffer_of(&self, p: Piece) -> Buffer {
        if p.append {
            self.appended()
        } else {
            self.original()
        }
    }

    pub open spec fn piece_at(&self, i: usize) -> Piece {
        self.piece_arena().slots()[i as int]
    }

    pub open spec fn node_at(&self, i: usize) -> Node {
        self.node_arena().slots()[i as int]
    }

    /// Both ends of `p` name characters of its buffer.
    pub open spec fn piece_ok(&self, p: Piece) -> bool {
        &&& self.buffer_of(p).in_bounds(p.start)
        &&& self.buffer_of(p).is_normal(p.end)
        &&& self.buffer_of(p).index_of(p.start) <= self.buffer_of(p).index_of(p.end)
    }

    /// The lines (`lines`) or the chars of a piece.
    pub open spec fn piece_metric(&self, p: Piece, lines: bool) -> int {
        if lines {
            Buffer::range_lines(p.start, p.end)
        } else {
            self.buffer_of(p).range_chars(p.start, p.end)
        }
    }

    pub open spec fn node_metric(&self, n: usize, lines: bool) -> int {
        self.piece_metric(self.piece_at(self.node_at(n).piece_index), lines)
    }

    /// The characters of the piece of node `n`.
    pub open spec fn node_text(&self, n: usize) -> Seq<char> {
        let p = self.piece_at(self.node_at(n).piece_index);
        let b = self.buffer_of(p);
        if b.index_of(p.start) > b.index_of(p.end) {
            Seq::empty()
        } else {
            b.text().subrange(b.index_of(p.start), b.index_of(p.end) + 1)
        }
    }

    pub open spec fn metric_sum(&self, s: Seq<usize>, lines: bool) -> int
        decreases s.len(),
    {
        if s.len() == 0 {
            0
        } else {
            self.node_metric(s[0], lines) + self.metric_sum(s.drop_first(), lines)
        }
    }

    /// The text of the nodes of `s`, in order.
    pub open spec fn text_of(&self, s: Seq<usize>) -> Seq<char>
        decreases s.len(),
    {
        if s.len() == 0 {
            Seq::empty()
        } else {
            self.node_text(s[0]) + self.text_of(s.drop_first())
        }
    }

    /// The node of `s` that holds unit `target` of the metric, counted from
    /// the start of `s`; 0 where `s` holds fewer units.
    pub open spec fn locate(&self, s: Seq<usize>, target: int, lines: bool) -> usize
        decreases s.len(),
    {
        if s.len() == 0 {
            0
        } else if target < self.node_metric(s[0], lines) {
            s[0]
        } else {
            self.locate(s.drop_first(), target - self.node_metric(s[0], lines), lines)
        }
    }

    /// The nodes of the subtree at `n`, in order, looking at most `h` levels deep.
    pub open spec fn in_order(&self, n: usize, h: nat) -> Seq<usize>
        decreases h,
    {
        if n == 0 || h == 0 {
            Seq::empty()
        } else {
            let nd = self.node_at(n);
            self.in_order(nd.left_index, (h - 1) as nat) + seq![n] + self.in_order(
                nd.right_index,
                (h - 1) as nat,
            )
        }
    }

    /// The subtree at `n` is at most `h` deep, its nodes and pieces are live,
    /// its pieces name characters, and each node counts its left subtree.
    pub open spec fn tree_ok(&self, n: usize, h: nat) -> bool
        decreases h,
    {
        n == 0 || (h > 0 && self.node_arena().is_live(n) && {
            let nd = self.node_at(n);
            let left = self.in_order(nd.left_index, (h - 1) as nat);
            &&& self.piece_arena().is_live(nd.piece_index)
            &&& self.piece_ok(self.piece_at(nd.piece_index))
            &&& self.tree_ok(nd.left_index, (h - 1) as nat)
            &&& self.tree_ok(nd.right_index, (h - 1) as nat)
            &&& nd.left_chars == self.metric_sum(left, false)
            &&& nd.left_linebreaks == self.metric_sum(left, true)
            &&& !left.contains(n)
            &&& !self.in_order(nd.right_index, (h - 1) as nat).contains(n)
            &&& forall|m: usize|
                left.contains(m) ==> !self.in_order(nd.right_index, (h - 1) as nat).contains(m)
        })
    }

    /// `new` keeps every node live in `self` but those of `except`, as it was.
    pub open spec fn nodes_kept(&self, new: &PieceTable, except: Seq<usize>) -> bool {
        forall|m: usize|
            #[trigger] self.node_arena().is_live(m) && !except.contains(m) ==> new.node_arena().is_live(
                m,
            ) && new.node_at(m) == self.node_at(m)
    }

    /// `new` keeps every piece live in `self`, and both buffers, as they were.
    pub open spec fn pieces_kept(&self, new: &PieceTable) -> bool {
        &&& forall|pi: usize| #[trigger]
            self.piece_arena().is_live(pi) ==> new.piece_arena().is_live(pi) && new.piece_at(pi)
                == self.piece_at(pi)
        &&& new.original() == self.original()
        &&& new.appended() == self.appended()
    }

    /// Buffers and arenas are well formed and both sentinels are live.
    pub open spec fn tables_ok(&self) -> bool {
        &&& self.original().wf()
        &&& self.appended().wf()
        &&& self.piece_arena().wf()
        &&& self.node_arena().wf()
        &&& self.piece_arena().is_live(0)
        &&& self.node_arena().is_live(0)
    }

    /// The nodes of the subtree at `n`, in document order.
    pub open spec fn subtree(&self, n: usize) -> Seq<usize> {
        self.in_order(n, self.depth_bound())
    }

    /// `n` roots a well-formed subtree whose totals fit in `usize`.
    pub open spec fn is_subtree(&self, n: usize) -> bool {
        &&& self.tree_ok(n, self.depth_bound())
        &&& self.metric_sum(self.subtree(n), false) <= usize::MAX
        &&& self.metric_sum(self.subtree(n), true) <= usize::MAX
    }

    pub open spec fn wf(&self) -> bool {
        &&& self.tables_ok()
        &&& self.is_subtree(self.root())
    }

    /// The document: the text of the whole tree.
    pub open spec fn text(&self) -> Seq<char> {
        self.text_of(self.subtree(self.root()))
    }
}

proof fn lemma_in_concat(a: Seq<usize>, b: Seq<usize>, m: usize)
    ensures
        (a + b).contains(m) == (a.contains(m) || b.contains(m)),
{
    if a.contains(m) {
        assert((a + b)[a.index_of(m)] == m);
    } else if b.contains(m) {
        assert((a + b)[a.len() + b.index_of(m)] == m);
    } else {
        lemma_not_in_concat(a, b, m);
    }
}

proof fn lemma_in_one(n: usize, m: usize)
    ensures
        seq![n].contains(m) == (m == n),
{
    let one: Seq<usize> = seq![n];
    assert(one[0] == n);
}

proof fn lemma_not_in_concat(a: Seq<usize>, b: Seq<usize>, m: usize)
    requires
        !a.contains(m),
        !b.contains(m),
    ensures
        !(a + b).contains(m),
{
    if (a + b).contains(m) {
        let k = (a + b).index_of(m);
        if k < a.len() {
            assert(a[k] == m);
        } else {
            assert(b[k - a.len()] == m);
        }
    }
}

/// Piece tree lemmas
impl PieceTable {
    /// What inserting the subtree at `x` at char `pos` of the subtree at `n` needs.
    #[verifier::opaque]
    pub open spec fn insert_ready(&self, n: usize, h: nat, pos: int, x: usize, xc: int, xl: int) -> bool {
        &&& self.tables_ok()
        &&& self.tree_ok(n, h)
        &&& self.tree_ok(x, 2)
        &&& x != 0
        &&& forall|m: usize| #[trigger]
            self.in_order(x, 2).contains(m) ==> !self.in_order(n, h).contains(m)
        &&& (self.node_at(x).left_index == 0 && self.node_at(x).right_index == 0) || pos == 0
        &&& xc == self.metric_sum(self.in_order(x, 2), false)
        &&& xl == self.metric_sum(self.in_order(x, 2), true)
        &&& 0 <= pos <= self.metric_sum(self.in_order(n, h), false)
        &&& self.metric_sum(self.in_order(n, h), false) + xc <= usize::MAX
        &&& self.metric_sum(self.in_order(n, h), true) + xl <= usize::MAX
    }

    /// `f` holds, under root `r`, the subtree at `n` of `self` with the subtree at `x`
    /// inserted at char `pos`, and changes nothing else that `self` holds.
    #[verifier::opaque]
    pub open spec fn inserted(
        &self,
        f: PieceTable,
        n: usize,
        h: nat,
        pos: int,
        x: usize,
        xc: int,
        xl: int,
        r: usize,
    ) -> bool {
        let s = self.in_order(n, h);
        let q = self.in_order(x, 2);
        &&& r != 0
        &&& f.tables_ok()
        &&& f.tree_ok(r, h + 2)
        &&& f.text_of(f.in_order(r, h + 2)) == self.text_of(s).take(pos) + self.text_of(q)
            + self.text_of(s).skip(pos)
        &&& f.metric_sum(f.in_order(r, h + 2), false) == self.metric_sum(s, false) + xc
        &&& f.metric_sum(f.in_order(r, h + 2), true) == self.metric_sum(s, true) + xl
        &&& self.nodes_kept(&f, s + q)
        &&& self.pieces_kept(&f)
        &&& forall|m: usize| #[trigger]
            f.in_order(r, h + 2).contains(m) ==> s.contains(m) || q.contains(m)
                || !self.node_arena().is_live(m)
        &&& f.root() == self.root()
    }

    proof fn lemma_inserted_keeps(
        &self,
        f: PieceTable,
        n: usize,
        h: nat,
        pos: int,
        x: usize,
        xc: int,
        xl: int,
        r: usize,
        m: usize,
    )
        requires
            self.inserted(f, n, h, pos, x, xc, xl, r),
            self.node_arena().is_live(m),
            !(self.in_order(n, h) + self.in_order(x, 2)).contains(m),
        ensures
            f.node_arena().is_live(m),
            f.node_at(m) == self.node_at(m),
            f.tables_ok(),
    {
        reveal(PieceTable::inserted);
    }

    /// Inserting into the empty subtree gives the inserted subtree itself.
    proof fn lemma_empty_done(&self, h: nat, pos: int, x: usize, xc: int, xl: int)
        requires
            self.insert_ready(0, h, pos, x, xc, xl),
        ensures
            self.inserted(*self, 0, h, pos, x, xc, xl, x),
    {
        reveal(PieceTable::insert_ready);
        reveal(PieceTable::inserted);
        assert(self.in_order(0, h) =~= Seq::<usize>::empty());
        assert(pos == 0);
        let q = self.in_order(x, 2);
        let whole = self.in_order(0, h);
        self.lemma_deeper_by(x, 2, h);
        assert(whole =~= Seq::<usize>::empty());
        assert(self.text_of(whole) =~= Seq::<char>::empty());
        assert(self.text_of(whole).take(0) + self.text_of(q) + self.text_of(whole).skip(0)
            =~= self.text_of(q));
        assert forall|m: usize| #[trigger] self.node_arena().is_live(m) && !(whole + q).contains(
            m,
        ) implies self.node_arena().is_live(m) && self.node_at(m) == self.node_at(m) by {}
    }

    /// `fin` differs from `mid` in node `n` alone.
    pub open spec fn node_updated(&self, fin: &PieceTable, n: usize) -> bool {
        &&& fin.node_arena().free_stack() == self.node_arena().free_stack()
        &&& fin.node_arena().slots().len() == self.node_arena().slots().len()
        &&& forall|m: usize|
            m != n && (m as int) < self.node_arena().slots().len() ==> #[trigger] fin.node_at(m)
                == self.node_at(m)
        &&& fin.piece_arena() == self.piece_arena()
        &&& fin.original() == self.original()
        &&& fin.appended() == self.appended()
        &&& fin.root() == self.root()
    }

    proof fn lemma_node_updated(&self, fin: &PieceTable, n: usize)
        requires
            self.node_updated(fin, n),
            self.node_arena().is_live(n),
        ensures
            self.nodes_kept(fin, seq![n]),
            self.pieces_kept(fin),
            fin.node_arena().is_live(n),
            self.tables_ok() ==> fin.tables_ok(),
    {
        assert forall|m: usize| #[trigger]
            self.node_arena().is_live(m) && !seq![n].contains(m) implies fin.node_arena().is_live(m)
            && fin.node_at(m) == self.node_at(m) by {
            lemma_in_one(n, m);
        }
    }

    /// The nodes of `a` lie in `s` or `q`, or were not live in `self`.
    pub open spec fn drawn_from(&self, a: Seq<usize>, s: Seq<usize>, q: Seq<usize>) -> bool {
        forall|m: usize| #[trigger] a.contains(m) ==> s.contains(m) || q.contains(m) || !self.node_arena().is_live(m)
    }

    /// The frame part of a step that replaced one child of `n` by `c2`,
    /// holding the nodes `a2` in place of `a`.
    proof fn lemma_step_frame(
        &self,
        mid: PieceTable,
        fin: PieceTable,
        n: usize,
        h: nat,
        a: Seq<usize>,
        a2: Seq<usize>,
        b: Seq<usize>,
        q: Seq<usize>,
    )
        requires
            self.tree_ok(n, h),
            n != 0,
            h > 0,
            self.in_order(n, h).contains(n),
            forall|m: usize| #[trigger] a.contains(m) ==> self.in_order(n, h).contains(m),
            forall|m: usize| #[trigger] b.contains(m) ==> self.in_order(n, h).contains(m),
            self.nodes_kept(&mid, a + q + seq![n]),
            mid.node_updated(&fin, n),
            self.drawn_from(a2, a, q),
            fin.in_order(n, h + 2) == a2 + seq![n] + b || fin.in_order(n, h + 2) == b + seq![n] + a2,
        ensures
            self.nodes_kept(&fin, self.in_order(n, h) + q),
            self.drawn_from(fin.in_order(n, h + 2), self.in_order(n, h), q),
    {
        let whole = self.in_order(n, h);
        assert forall|m: usize| #[trigger]
            self.node_arena().is_live(m) && !(whole + q).contains(m) implies fin.node_arena().is_live(m)
            && fin.node_at(m) == self.node_at(m) by {
            lemma_in_concat(whole, q, m);
            lemma_in_concat(a, q, m);
            lemma_in_concat(a + q, seq![n], m);
            lemma_in_one(n, m);
            if a.contains(m) {
                assert(whole.contains(m));
            }
            assert(m != n);
        }
        assert forall|m: usize| #[trigger] fin.in_order(n, h + 2).contains(m) implies whole.contains(m)
            || q.contains(m) || !self.node_arena().is_live(m) by {
            lemma_in_concat(a2 + seq![n], b, m);
            lemma_in_concat(a2, seq![n], m);
            lemma_in_concat(b + seq![n], a2, m);
            lemma_in_concat(b, seq![n], m);
            lemma_in_one(n, m);
        }
    }

    /// The tree part of a step that replaced the left child of `n`.
    #[verifier::rlimit(60)]
    proof fn lemma_left_tree(
        &self,
        mid: PieceTable,
        fin: PieceTable,
        n: usize,
        h: nat,
        pos: int,
        x: usize,
        xc: int,
        xl: int,
        new_left: usize,
    )
        requires
            self.tables_ok(),
            self.tree_ok(n, h),
            n != 0,
            h > 0,
            0 <= pos <= self.node_at(n).left_chars,
            forall|m: usize| #[trigger] self.in_order(x, 2).contains(m) ==> !self.in_order(n, h).contains(m),
            ({
                let l = self.in_order(self.node_at(n).left_index, (h - 1) as nat);
                let q = self.in_order(x, 2);
                let l2 = mid.in_order(new_left, h + 1);
                &&& mid.tree_ok(new_left, h + 1)
                &&& mid.text_of(l2) == self.text_of(l).take(pos) + self.text_of(q) + self.text_of(l).skip(pos)
                &&& mid.metric_sum(l2, false) == self.metric_sum(l, false) + xc
                &&& mid.metric_sum(l2, true) == self.metric_sum(l, true) + xl
                &&& self.nodes_kept(&mid, l + q)
                &&& self.pieces_kept(&mid)
                &&& self.drawn_from(l2, l, q)
                &&& !(l + q).contains(n)
            }),
            mid.node_arena().is_live(n),
            mid.node_at(n) == self.node_at(n),
            mid.node_updated(&fin, n),
            fin.node_at(n).left_index == new_left,
            fin.node_at(n).left_chars == self.node_at(n).left_chars + xc,
            fin.node_at(n).left_linebreaks == self.node_at(n).left_linebreaks + xl,
            fin.node_at(n).right_index == self.node_at(n).right_index,
            fin.node_at(n).piece_index == self.node_at(n).piece_index,
        ensures
            fin.tree_ok(n, h + 2),
            fin.in_order(n, h + 2) == mid.in_order(new_left, h + 1) + seq![n] + self.in_order(
                self.node_at(n).right_index,
                (h - 1) as nat,
            ),
            fin.text_of(fin.in_order(n, h + 2)) == self.text_of(self.in_order(n, h)).take(pos)
                + self.text_of(self.in_order(x, 2)) + self.text_of(self.in_order(n, h)).skip(pos),
            fin.metric_sum(fin.in_order(n, h + 2), false) == self.metric_sum(self.in_order(n, h), false) + xc,
            fin.metric_sum(fin.in_order(n, h + 2), true) == self.metric_sum(self.in_order(n, h), true) + xl,
    {
        let nd = self.node_at(n);
        let right = nd.right_index;
        let l = self.in_order(nd.left_index, (h - 1) as nat);
        let rr = self.in_order(right, (h - 1) as nat);
        let whole = self.in_order(n, h);
        let q = self.in_order(x, 2);
        let l2 = mid.in_order(new_left, h + 1);
        assert(whole == l + seq![n] + rr);
        self.lemma_three(l, n, rr);
        self.lemma_members(n, h);
        self.lemma_members(nd.left_index, (h - 1) as nat);
        self.lemma_text_len(l);
        assert forall|m: usize| #[trigger] rr.contains(m) implies whole.contains(m) by {
            lemma_in_concat(l + seq![n], rr, m);
        }
        mid.lemma_node_updated(&fin, n);
        lemma_in_concat(l, q, n);
        assert forall|m: usize| #[trigger] l2.contains(m) implies !seq![n].contains(m) by {
            lemma_in_one(n, m);
        }
        mid.lemma_kept(&fin, new_left, h + 1, seq![n]);
        assert forall|m: usize| #[trigger] rr.contains(m) implies !(l + q).contains(m) by {
            lemma_in_concat(l, q, m);
        }
        self.lemma_kept(&mid, right, (h - 1) as nat, l + q);
        assert forall|m: usize| #[trigger] rr.contains(m) implies !seq![n].contains(m) by {
            lemma_in_one(n, m);
        }
        mid.lemma_kept(&fin, right, (h - 1) as nat, seq![n]);
        fin.lemma_deeper_by(right, (h - 1) as nat, 2);
        fin.lemma_three(l2, n, rr);
        assert(fin.node_text(n) == self.node_text(n));
        assert(fin.node_metric(n, true) == self.node_metric(n, true));
        assert(fin.node_metric(n, false) == self.node_metric(n, false));
        assert(self.text_of(whole).take(pos) + self.text_of(q) + self.text_of(whole).skip(pos)
            =~= (self.text_of(l).take(pos) + self.text_of(q) + self.text_of(l).skip(pos))
            + self.node_text(n) + self.text_of(rr));
        assert forall|m: usize| #[trigger] l2.contains(m) implies !rr.contains(m) by {
            if rr.contains(m) {
                assert(whole.contains(m));
                assert(!l.contains(m));
                assert(!q.contains(m));
            }
        }
        assert(fin.piece_at(nd.piece_index) == self.piece_at(nd.piece_index));
        assert(fin.tree_ok(n, h + 2));
    }

    /// Going left, then pointing `n` at the grown left subtree, inserts at `pos`.
    proof fn lemma_left_done(
        &self,
        mid: PieceTable,
        fin: PieceTable,
        n: usize,
        h: nat,
        pos: int,
        x: usize,
        xc: int,
        xl: int,
        new_left: usize,
    )
        requires
            self.insert_ready(n, h, pos, x, xc, xl),
            n != 0,
            h > 0,
            pos <= self.node_at(n).left_chars,
            self.inserted(mid, self.node_at(n).left_index, (h - 1) as nat, pos, x, xc, xl, new_left),
            !(self.in_order(self.node_at(n).left_index, (h - 1) as nat) + self.in_order(x, 2)).contains(n),
            mid.node_arena().is_live(n),
            mid.node_at(n) == self.node_at(n),
            mid.node_updated(&fin, n),
            fin.node_at(n).left_index == new_left,
            fin.node_at(n).left_chars == self.node_at(n).left_chars + xc,
            fin.node_at(n).left_linebreaks == self.node_at(n).left_linebreaks + xl,
            fin.node_at(n).right_index == self.node_at(n).right_index,
            fin.node_at(n).piece_index == self.node_at(n).piece_index,
        ensures
            self.inserted(fin, n, h, pos, x, xc, xl, n),
    {
        reveal(PieceTable::insert_ready);
        reveal(PieceTable::inserted);
        let nd = self.node_at(n);
        let l = self.in_order(nd.left_index, (h - 1) as nat);
        let rr = self.in_order(nd.right_index, (h - 1) as nat);
        let whole = self.in_order(n, h);
        let q = self.in_order(x, 2);
        assert(whole == l + seq![n] + rr);
        self.lemma_left_tree(mid, fin, n, h, pos, x, xc, xl, new_left);
        assert forall|m: usize| #[trigger] l.contains(m) implies whole.contains(m) by {
            lemma_in_concat(l + seq![n], rr, m);
            lemma_in_concat(l, seq![n], m);
        }
        assert forall|m: usize| #[trigger] rr.contains(m) implies whole.contains(m) by {
            lemma_in_concat(l + seq![n], rr, m);
        }
        assert(whole.contains(n)) by {
            lemma_in_concat(l + seq![n], rr, n);
            lemma_in_concat(l, seq![n], n);
            lemma_in_one(n, n);
        }
        self.lemma_kept_weaken(mid, l + q, seq![n]);
        self.lemma_step_frame(mid, fin, n, h, l, mid.in_order(new_left, h + 1), rr, q);
        mid.lemma_node_updated(&fin, n);
    }

    /// The tree part of a step that replaced the right child of `n`.
    #[verifier::rlimit(60)]
    proof fn lemma_right_tree(
        &self,
        mid: PieceTable,
        fin: PieceTable,
        n: usize,
        h: nat,
        pos: int,
        x: usize,
        xc: int,
        xl: int,
        new_right: usize,
    )
        requires
            self.tables_ok(),
            self.tree_ok(n, h),
            n != 0,
            h > 0,
            self.node_at(n).left_chars + self.node_metric(n, false) <= pos,
            pos <= self.metric_sum(self.in_order(n, h), false),
            forall|m: usize| #[trigger] self.in_order(x, 2).contains(m) ==> !self.in_order(n, h).contains(m),
            ({
                let rr = self.in_order(self.node_at(n).right_index, (h - 1) as nat);
                let q = self.in_order(x, 2);
                let r2 = mid.in_order(new_right, h + 1);
                let right_pos = pos - self.node_at(n).left_chars - self.node_metric(n, false);
                &&& mid.tree_ok(new_right, h + 1)
                &&& mid.text_of(r2) == self.text_of(rr).take(right_pos) + self.text_of(q) + self.text_of(rr).skip(right_pos)
                &&& mid.metric_sum(r2, false) == self.metric_sum(rr, false) + xc
                &&& mid.metric_sum(r2, true) == self.metric_sum(rr, true) + xl
                &&& self.nodes_kept(&mid, rr + q)
                &&& self.pieces_kept(&mid)
                &&& self.drawn_from(r2, rr, q)
                &&& !(rr + q).contains(n)
            }),
            mid.node_arena().is_live(n),
            mid.node_at(n) == self.node_at(n),
            mid.node_updated(&fin, n),
            fin.node_at(n).right_index == new_right,
            fin.node_at(n).left_chars == self.node_at(n).left_chars,
            fin.node_at(n).left_linebreaks == self.node_at(n).left_linebreaks,
            fin.node_at(n).left_index == self.node_at(n).left_index,
            fin.node_at(n).piece_index == self.node_at(n).piece_index,
        ensures
            fin.tree_ok(n, h + 2),
            fin.in_order(n, h + 2) == self.in_order(self.node_at(n).left_index, (h - 1) as nat)
                + seq![n] + mid.in_order(new_right, h + 1),
            fin.text_of(fin.in_order(n, h + 2)) == self.text_of(self.in_order(n, h)).take(pos)
                + self.text_of(self.in_order(x, 2)) + self.text_of(self.in_order(n, h)).skip(pos),
            fin.metric_sum(fin.in_order(n, h + 2), false) == self.metric_sum(self.in_order(n, h), false) + xc,
            fin.metric_sum(fin.in_order(n, h + 2), true) == self.metric_sum(self.in_order(n, h), true) + xl,
    {
        let nd = self.node_at(n);
        let left = nd.left_index;
        let l = self.in_order(left, (h - 1) as nat);
        let rr = self.in_order(nd.right_index, (h - 1) as nat);
        let whole = self.in_order(n, h);
        let q = self.in_order(x, 2);
        let r2 = mid.in_order(new_right, h + 1);
        let right_pos = pos - nd.left_chars - self.node_metric(n, false);
        assert(whole == l + seq![n] + rr);
        self.lemma_three(l, n, rr);
        self.lemma_members(n, h);
        self.lemma_members(left, (h - 1) as nat);
        self.lemma_members(nd.right_index, (h - 1) as nat);
        self.lemma_text_len(l);
        self.lemma_text_len(rr);
        let p = self.piece_at(nd.piece_index);
        assert(self.piece_ok(p));
        lemma_line_starts_shape(self.buffer_of(p).text());
        assert(self.node_text(n).len() == self.node_metric(n, false));
        assert forall|m: usize| #[trigger] l.contains(m) implies whole.contains(m) by {
            lemma_in_concat(l + seq![n], rr, m);
            lemma_in_concat(l, seq![n], m);
        }
        mid.lemma_node_updated(&fin, n);
        lemma_in_concat(rr, q, n);
        assert forall|m: usize| #[trigger] r2.contains(m) implies !seq![n].contains(m) by {
            lemma_in_one(n, m);
        }
        mid.lemma_kept(&fin, new_right, h + 1, seq![n]);
        assert forall|m: usize| #[trigger] l.contains(m) implies !(rr + q).contains(m) by {
            lemma_in_concat(rr, q, m);
        }
        self.lemma_kept(&mid, left, (h - 1) as nat, rr + q);
        assert forall|m: usize| #[trigger] l.contains(m) implies !seq![n].contains(m) by {
            lemma_in_one(n, m);
        }
        mid.lemma_kept(&fin, left, (h - 1) as nat, seq![n]);
        fin.lemma_deeper_by(left, (h - 1) as nat, 2);
        fin.lemma_three(l, n, r2);
        assert(fin.node_text(n) == self.node_text(n));
        assert(fin.node_metric(n, true) == self.node_metric(n, true));
        assert(fin.node_metric(n, false) == self.node_metric(n, false));
        assert(self.text_of(whole).take(pos) + self.text_of(q) + self.text_of(whole).skip(pos)
            =~= self.text_of(l) + self.node_text(n) + (self.text_of(rr).take(right_pos) + self.text_of(q)
            + self.text_of(rr).skip(right_pos)));
        assert forall|m: usize| #[trigger] l.contains(m) implies !r2.contains(m) by {
            if r2.contains(m) {
                assert(whole.contains(m));
                assert(!rr.contains(m));
                assert(!q.contains(m));
            }
        }
        assert(fin.piece_at(nd.piece_index) == self.piece_at(nd.piece_index));
        assert(fin.tree_ok(n, h + 2));
    }

    /// Going right, then pointing `n` at the grown right subtree, inserts at `pos`.
    proof fn lemma_right_done(
        &self,
        mid: PieceTable,
        fin: PieceTable,
        n: usize,
        h: nat,
        pos: int,
        x: usize,
        xc: int,
        xl: int,
        new_right: usize,
    )
        requires
            self.insert_ready(n, h, pos, x, xc, xl),
            n != 0,
            h > 0,
            self.node_at(n).left_chars + self.node_metric(n, false) <= pos,
            self.inserted(
                mid,
                self.node_at(n).right_index,
                (h - 1) as nat,
                pos - self.node_at(n).left_chars - self.node_metric(n, false),
                x,
                xc,
                xl,
                new_right,
            ),
            !(self.in_order(self.node_at(n).right_index, (h - 1) as nat) + self.in_order(x, 2)).contains(n),
            mid.node_arena().is_live(n),
            mid.node_at(n) == self.node_at(n),
            mid.node_updated(&fin, n),
            fin.node_at(n).right_index == new_right,
            fin.node_at(n).left_chars == self.node_at(n).left_chars,
            fin.node_at(n).left_linebreaks == self.node_at(n).left_linebreaks,
            fin.node_at(n).left_index == self.node_at(n).left_index,
            fin.node_at(n).piece_index == self.node_at(n).piece_index,
        ensures
            self.inserted(fin, n, h, pos, x, xc, xl, n),
    {
        reveal(PieceTable::insert_ready);
        reveal(PieceTable::inserted);
        let nd = self.node_at(n);
        let l = self.in_order(nd.left_index, (h - 1) as nat);
        let rr = self.in_order(nd.right_index, (h - 1) as nat);
        let whole = self.in_order(n, h);
        let q = self.in_order(x, 2);
        assert(whole == l + seq![n] + rr);
        self.lemma_right_tree(mid, fin, n, h, pos, x, xc, xl, new_right);
        assert forall|m: usize| #[trigger] l.contains(m) implies whole.contains(m) by {
            lemma_in_concat(l + seq![n], rr, m);
            lemma_in_concat(l, seq![n], m);
        }
        assert forall|m: usize| #[trigger] rr.contains(m) implies whole.contains(m) by {
            lemma_in_concat(l + seq![n], rr, m);
        }
        assert(whole.contains(n)) by {
            lemma_in_concat(l + seq![n], rr, n);
            lemma_in_concat(l, seq![n], n);
            lemma_in_one(n, n);
        }
        self.lemma_kept_weaken(mid, rr + q, seq![n]);
        self.lemma_step_frame(mid, fin, n, h, rr, mid.in_order(new_right, h + 1), l, q);
        mid.lemma_node_updated(&fin, n);
    }

    proof fn lemma_kept_weaken(&self, f: PieceTable, a: Seq<usize>, b: Seq<usize>)
        requires
            self.nodes_kept(&f, a),
        ensures
            self.nodes_kept(&f, a + b),
    {
        assert forall|m: usize| #[trigger]
            self.node_arena().is_live(m) && !(a + b).contains(m) implies f.node_arena().is_live(m)
            && f.node_at(m) == self.node_at(m) by {
            lemma_in_concat(a, b, m);
        }
    }

    /// After the split of `n`, the right subtree of `n` is ready to take `x` and
    /// the new node `y` at its start.
    #[verifier::rlimit(60)]
    proof fn lemma_split_ready(
        &self,
        s5: PieceTable,
        n: usize,
        h: nat,
        pos: int,
        x: usize,
        xc: int,
        xl: int,
        y: usize,
        tc: int,
        tl: int,
    )
        requires
            self.insert_ready(n, h, pos, x, xc, xl),
            n != 0,
            self.node_at(n).left_chars < pos < self.node_at(n).left_chars + self.node_metric(n, false),
            s5.tables_ok(),
            self.nodes_kept(&s5, seq![n, x]),
            self.pieces_kept(&s5),
            forall|m: usize| #[trigger] self.node_arena().is_live(m) ==> s5.node_arena().is_live(m),
            y != 0,
            !self.node_arena().is_live(y),
            s5.node_arena().is_live(y),
            s5.node_at(x).left_index == 0,
            s5.node_at(x).right_index == y,
            s5.node_at(x).left_chars == self.node_at(x).left_chars,
            s5.node_at(x).left_linebreaks == self.node_at(x).left_linebreaks,
            s5.node_at(x).piece_index == self.node_at(x).piece_index,
            s5.node_at(y).left_index == 0,
            s5.node_at(y).right_index == 0,
            s5.node_at(y).left_chars == 0,
            s5.node_at(y).left_linebreaks == 0,
            s5.piece_arena().is_live(s5.node_at(y).piece_index),
            s5.piece_ok(s5.piece_at(s5.node_at(y).piece_index)),
            tc == s5.node_metric(y, false),
            tc == self.node_metric(n, false) - (pos - self.node_at(n).left_chars),
            tl == s5.node_metric(y, true),
            s5.node_metric(n, true) + s5.node_metric(y, true) == self.node_metric(n, true),
            s5.node_metric(x, false) == self.node_metric(x, false),
            s5.node_metric(x, true) == self.node_metric(x, true),
        ensures
            h > 0,
            self.in_order(x, 2) == seq![x],
            s5.in_order(x, 2) == seq![x, y],
            s5.insert_ready(self.node_at(n).right_index, (h - 1) as nat, 0, x, xc + tc, xl + tl),
            !(self.in_order(self.node_at(n).right_index, (h - 1) as nat) + seq![x, y]).contains(n),
            s5.in_order(self.node_at(n).right_index, (h - 1) as nat) == self.in_order(
                self.node_at(n).right_index,
                (h - 1) as nat,
            ),
            s5.text_of(self.in_order(self.node_at(n).right_index, (h - 1) as nat)) == self.text_of(
                self.in_order(self.node_at(n).right_index, (h - 1) as nat),
            ),
            s5.metric_sum(self.in_order(self.node_at(n).right_index, (h - 1) as nat), false)
                == self.metric_sum(self.in_order(self.node_at(n).right_index, (h - 1) as nat), false),
            s5.metric_sum(self.in_order(self.node_at(n).right_index, (h - 1) as nat), true)
                == self.metric_sum(self.in_order(self.node_at(n).right_index, (h - 1) as nat), true),
            xc + tc <= usize::MAX,
            xl + tl <= usize::MAX,
    {
        reveal(PieceTable::insert_ready);
        let nd = self.node_at(n);
        let l = self.in_order(nd.left_index, (h - 1) as nat);
        let rr = self.in_order(nd.right_index, (h - 1) as nat);
        let whole = self.in_order(n, h);
        assert(whole == l + seq![n] + rr);
        self.lemma_three(l, n, rr);
        self.lemma_metric_nonneg(l, true);
        self.lemma_metric_nonneg(l, false);
        self.lemma_metric_nonneg(rr, true);
        self.lemma_metric_nonneg(rr, false);
        self.lemma_members(n, h);
        self.lemma_members(nd.right_index, (h - 1) as nat);
        assert(self.in_order(0, 1) =~= Seq::<usize>::empty());
        assert(self.in_order(x, 2) =~= seq![x]);
        assert(s5.in_order(0, 0) =~= Seq::<usize>::empty());
        assert(s5.in_order(0, 1) =~= Seq::<usize>::empty());
        assert(s5.in_order(y, 1) =~= seq![y]);
        assert(s5.in_order(x, 2) =~= seq![x, y]);
        assert forall|m: usize| #[trigger] rr.contains(m) implies whole.contains(m) by {
            lemma_in_concat(l + seq![n], rr, m);
        }
        assert forall|m: usize| #[trigger] rr.contains(m) implies !seq![n, x].contains(m) by {
            let two: Seq<usize> = seq![n, x];
            assert(two[0] == n && two[1] == x);
            if two.contains(m) {
                let k = two.index_of(m);
                assert(m == n || m == x);
                assert(self.in_order(x, 2).contains(x)) by {
                    assert(self.in_order(x, 2)[0] == x);
                }
            }
        }
        self.lemma_kept(&s5, nd.right_index, (h - 1) as nat, seq![n, x]);
        let one_y: Seq<usize> = seq![y];
        assert(one_y.drop_first() =~= Seq::<usize>::empty());
        assert(one_y[0] == y);
        assert(s5.metric_sum(one_y.drop_first(), false) == 0);
        assert(s5.metric_sum(one_y.drop_first(), true) == 0);
        assert(s5.metric_sum(one_y, false) == s5.node_metric(y, false));
        assert(s5.metric_sum(one_y, true) == s5.node_metric(y, true));
        assert(seq![x, y].drop_first() =~= one_y);
        assert(self.metric_sum(seq![x], false) == self.node_metric(x, false)) by {
            assert(seq![x].drop_first() =~= Seq::<usize>::empty());
        }
        assert(self.metric_sum(seq![x], true) == self.node_metric(x, true)) by {
            assert(seq![x].drop_first() =~= Seq::<usize>::empty());
        }
        assert(s5.metric_sum(s5.in_order(0, 0), false) == 0);
        assert(s5.metric_sum(s5.in_order(0, 0), true) == 0);
        assert(s5.metric_sum(s5.in_order(0, 1), false) == 0);
        assert(s5.metric_sum(s5.in_order(0, 1), true) == 0);
        assert(self.metric_sum(self.in_order(0, 1), false) == 0);
        assert(self.metric_sum(self.in_order(0, 1), true) == 0);
        assert(!s5.in_order(0, 0).contains(y));
        assert(s5.tree_ok(0, 0));
        assert(s5.tree_ok(y, 1));
        let xp = self.node_at(x).piece_index;
        assert(self.piece_arena().is_live(xp));
        assert(s5.piece_arena().is_live(xp));
        assert(s5.piece_at(xp) == self.piece_at(xp));
        assert(s5.piece_ok(s5.piece_at(xp)));
        assert(self.node_arena().is_live(x));
        assert(s5.node_arena().is_live(x));
        assert(!s5.in_order(0, 1).contains(x));
        assert(s5.tree_ok(0, 1));
        assert(!seq![y].contains(x)) by {
            lemma_in_one(y, x);
        }
        assert(s5.tree_ok(x, 2));
        assert forall|m: usize| #[trigger] s5.in_order(x, 2).contains(m) implies !s5.in_order(
            nd.right_index,
            (h - 1) as nat,
        ).contains(m) by {
            let two: Seq<usize> = seq![x, y];
            assert(two[0] == x && two[1] == y);
            let k = two.index_of(m);
            if rr.contains(m) {
                assert(self.node_arena().is_live(m));
                assert(whole.contains(m));
            }
        }
        assert(!(rr + seq![x, y]).contains(n)) by {
            lemma_in_concat(rr, seq![x, y], n);
            let two: Seq<usize> = seq![x, y];
            assert(two[0] == x && two[1] == y);
            assert(whole.contains(n)) by {
                assert(whole[l.len() as int] == n);
            }
            if two.contains(n) {
                let k = two.index_of(n);
            }
        }
    }

    /// The tree part of the split step: `n` keeps its left subtree, holds the
    /// head of its piece, and points at the right subtree grown by `x` and the tail.
    #[verifier::rlimit(60)]
    proof fn lemma_split_tree(
        &self,
        fin: PieceTable,
        n: usize,
        h: nat,
        pos: int,
        x: usize,
        xc: int,
        xl: int,
        tl: int,
        new_right: usize,
    )
        requires
            self.tables_ok(),
            self.tree_ok(n, h),
            n != 0,
            h > 0,
            self.node_at(n).left_chars < pos < self.node_at(n).left_chars + self.node_metric(n, false),
            self.in_order(x, 2) == seq![x],
            xc == self.node_metric(x, false),
            xl == self.node_metric(x, true),
            ({
                let nd = self.node_at(n);
                let l = self.in_order(nd.left_index, (h - 1) as nat);
                let rr = self.in_order(nd.right_index, (h - 1) as nat);
                let r2 = fin.in_order(new_right, h + 1);
                let local = pos - nd.left_chars;
                &&& fin.tree_ok(nd.left_index, (h - 1) as nat)
                &&& fin.in_order(nd.left_index, (h - 1) as nat) == l
                &&& fin.metric_sum(l, false) == self.metric_sum(l, false)
                &&& fin.metric_sum(l, true) == self.metric_sum(l, true)
                &&& fin.text_of(l) == self.text_of(l)
                &&& fin.tree_ok(new_right, h + 1)
                &&& fin.text_of(r2) == self.node_text(x) + self.node_text(n).skip(local)
                    + self.text_of(rr)
                &&& fin.metric_sum(r2, false) == self.metric_sum(rr, false) + xc + (
                self.node_metric(n, false) - local)
                &&& fin.metric_sum(r2, true) == self.metric_sum(rr, true) + xl + tl
                &&& fin.node_arena().is_live(n)
                &&& fin.node_at(n).left_index == nd.left_index
                &&& fin.node_at(n).right_index == new_right
                &&& fin.node_at(n).left_chars == nd.left_chars
                &&& fin.node_at(n).left_linebreaks == nd.left_linebreaks
                &&& fin.piece_arena().is_live(fin.node_at(n).piece_index)
                &&& fin.piece_ok(fin.piece_at(fin.node_at(n).piece_index))
                &&& fin.node_metric(n, false) == local
                &&& fin.node_metric(n, true) + tl == self.node_metric(n, true)
                &&& fin.node_text(n) == self.node_text(n).take(local)
                &&& !r2.contains(n)
                &&& forall|m: usize| #[trigger] l.contains(m) ==> !r2.contains(m)
            }),
        ensures
            fin.tree_ok(n, h + 2),
            fin.in_order(n, h + 2) == self.in_order(self.node_at(n).left_index, (h - 1) as nat)
                + seq![n] + fin.in_order(new_right, h + 1),
            fin.text_of(fin.in_order(n, h + 2)) == self.text_of(self.in_order(n, h)).take(pos)
                + self.text_of(self.in_order(x, 2)) + self.text_of(self.in_order(n, h)).skip(pos),
            fin.metric_sum(fin.in_order(n, h + 2), false) == self.metric_sum(self.in_order(n, h), false) + xc,
            fin.metric_sum(fin.in_order(n, h + 2), true) == self.metric_sum(self.in_order(n, h), true) + xl,
    {
        let nd = self.node_at(n);
        let left = nd.left_index;
        let l = self.in_order(left, (h - 1) as nat);
        let rr = self.in_order(nd.right_index, (h - 1) as nat);
        let whole = self.in_order(n, h);
        let r2 = fin.in_order(new_right, h + 1);
        let local = pos - nd.left_chars;
        assert(whole == l + seq![n] + rr);
        self.lemma_three(l, n, rr);
        self.lemma_members(n, h);
        self.lemma_members(left, (h - 1) as nat);
        self.lemma_text_len(l);
        let p = self.piece_at(nd.piece_index);
        assert(self.piece_ok(p));
        lemma_line_starts_shape(self.buffer_of(p).text());
        assert(self.node_text(n).len() == self.node_metric(n, false));
        assert(self.text_of(seq![x]) == self.node_text(x)) by {
            assert(seq![x].drop_first() =~= Seq::<usize>::empty());
            assert(self.text_of(seq![x].drop_first()) =~= Seq::<char>::empty());
            assert(seq![x][0] == x);
        }
        assert(l.contains(n) == false);
        fin.lemma_deeper_by(left, (h - 1) as nat, 2);
        fin.lemma_three(l, n, r2);
        let tn = self.node_text(n);
        assert(self.text_of(whole).take(pos) + self.node_text(x) + self.text_of(whole).skip(pos)
            =~= self.text_of(l) + tn.take(local) + (self.node_text(x) + tn.skip(local)
            + self.text_of(rr)));
        assert(fin.tree_ok(n, h + 2));
    }

    /// Splitting `n`, then inserting `x` and the tail at the start of the right
    /// subtree, inserts at `pos`.
    #[verifier::rlimit(80)]
    proof fn lemma_split_done(
        &self,
        s5: PieceTable,
        s6: PieceTable,
        fin: PieceTable,
        n: usize,
        h: nat,
        pos: int,
        x: usize,
        xc: int,
        xl: int,
        y: usize,
        tc: int,
        tl: int,
        new_right: usize,
    )
        requires
            self.insert_ready(n, h, pos, x, xc, xl),
            n != 0,
            self.node_at(n).left_chars < pos < self.node_at(n).left_chars + self.node_metric(n, false),
            s5.tables_ok(),
            self.nodes_kept(&s5, seq![n, x]),
            self.pieces_kept(&s5),
            forall|m: usize| #[trigger] self.node_arena().is_live(m) ==> s5.node_arena().is_live(m),
            y != 0,
            !self.node_arena().is_live(y),
            s5.node_arena().is_live(y),
            s5.node_at(n).left_index == self.node_at(n).left_index,
            s5.node_at(n).right_index == self.node_at(n).right_index,
            s5.node_at(n).left_chars == self.node_at(n).left_chars,
            s5.node_at(n).left_linebreaks == self.node_at(n).left_linebreaks,
            s5.node_at(x).left_index == 0,
            s5.node_at(x).right_index == y,
            s5.node_at(x).left_chars == self.node_at(x).left_chars,
            s5.node_at(x).left_linebreaks == self.node_at(x).left_linebreaks,
            s5.node_at(x).piece_index == self.node_at(x).piece_index,
            s5.node_at(y).left_index == 0,
            s5.node_at(y).right_index == 0,
            s5.node_at(y).left_chars == 0,
            s5.node_at(y).left_linebreaks == 0,
            s5.piece_arena().is_live(s5.node_at(n).piece_index),
            s5.piece_ok(s5.piece_at(s5.node_at(n).piece_index)),
            s5.piece_arena().is_live(s5.node_at(y).piece_index),
            s5.piece_ok(s5.piece_at(s5.node_at(y).piece_index)),
            s5.node_metric(n, false) == pos - self.node_at(n).left_chars,
            tc == s5.node_metric(y, false),
            tc == self.node_metric(n, false) - (pos - self.node_at(n).left_chars),
            tl == s5.node_metric(y, true),
            s5.node_metric(n, true) + s5.node_metric(y, true) == self.node_metric(n, true),
            s5.node_text(n) == self.node_text(n).take(pos - self.node_at(n).left_chars),
            s5.node_text(y) == self.node_text(n).skip(pos - self.node_at(n).left_chars),
            s5.node_metric(x, false) == self.node_metric(x, false),
            s5.node_metric(x, true) == self.node_metric(x, true),
            s5.node_text(x) == self.node_text(x),
            s5.root() == self.root(),
            s5.inserted(s6, self.node_at(n).right_index, (h - 1) as nat, 0, x, xc + tc, xl + tl, new_right),
            s6.node_updated(&fin, n),
            fin.node_at(n).right_index == new_right,
            fin.node_at(n).left_index == self.node_at(n).left_index,
            fin.node_at(n).left_chars == self.node_at(n).left_chars,
            fin.node_at(n).left_linebreaks == self.node_at(n).left_linebreaks,
            fin.node_at(n).piece_index == s5.node_at(n).piece_index,
        ensures
            self.inserted(fin, n, h, pos, x, xc, xl, n),
    {
        self.lemma_split_ready(s5, n, h, pos, x, xc, xl, y, tc, tl);
        reveal(PieceTable::insert_ready);
        reveal(PieceTable::inserted);
        let nd = self.node_at(n);
        let left = nd.left_index;
        let right = nd.right_index;
        let l = self.in_order(left, (h - 1) as nat);
        let rr = self.in_order(right, (h - 1) as nat);
        let whole = self.in_order(n, h);
        let q = self.in_order(x, 2);
        let q5: Seq<usize> = seq![x, y];
        let two: Seq<usize> = seq![n, x];
        let r2 = s6.in_order(new_right, h + 1);
        let local = pos - nd.left_chars;
        assert(two[0] == n && two[1] == x);
        assert(q5[0] == x && q5[1] == y);
        assert(whole == l + seq![n] + rr);
        self.lemma_members(n, h);
        self.lemma_members(left, (h - 1) as nat);
        self.lemma_members(right, (h - 1) as nat);
        assert forall|m: usize| #[trigger] l.contains(m) implies whole.contains(m) by {
            lemma_in_concat(l + seq![n], rr, m);
            lemma_in_concat(l, seq![n], m);
        }
        assert forall|m: usize| #[trigger] rr.contains(m) implies whole.contains(m) by {
            lemma_in_concat(l + seq![n], rr, m);
        }
        assert(whole.contains(n)) by {
            assert(whole[l.len() as int] == n);
        }
        assert(q.contains(x)) by {
            assert(q[0] == x);
        }
        // the left subtree is untouched all along
        assert forall|m: usize| #[trigger] l.contains(m) implies !two.contains(m) by {
            if two.contains(m) {
                let k = two.index_of(m);
            }
        }
        self.lemma_kept(&s5, left, (h - 1) as nat, two);
        assert forall|m: usize| #[trigger] l.contains(m) implies !(rr + q5).contains(m) by {
            lemma_in_concat(rr, q5, m);
            if q5.contains(m) {
                let k = q5.index_of(m);
            }
        }
        s5.lemma_kept(&s6, left, (h - 1) as nat, rr + q5);
        assert(s5.node_arena().is_live(n));
        assert(!(rr + q5).contains(n));
        s6.lemma_node_updated(&fin, n);
        assert forall|m: usize| #[trigger] l.contains(m) implies !seq![n].contains(m) by {
            lemma_in_one(n, m);
        }
        s6.lemma_kept(&fin, left, (h - 1) as nat, seq![n]);
        // the grown right subtree
        assert(!r2.contains(n)) by {
            assert(s5.node_arena().is_live(n));
            lemma_in_concat(rr, q5, n);
        }
        assert forall|m: usize| #[trigger] r2.contains(m) implies !seq![n].contains(m) by {
            lemma_in_one(n, m);
        }
        s6.lemma_kept(&fin, new_right, h + 1, seq![n]);
        assert(s5.text_of(q5) == s5.node_text(x) + s5.node_text(y)) by {
            assert(q5.drop_first() =~= seq![y]);
            assert(seq![y].drop_first() =~= Seq::<usize>::empty());
            let one_y: Seq<usize> = seq![y];
            assert(one_y[0] == y);
            assert(s5.text_of(one_y.drop_first()) =~= Seq::<char>::empty());
            assert(s5.text_of(one_y) =~= s5.node_text(y));
        }
        assert(s5.text_of(rr).take(0) + s5.text_of(q5) + s5.text_of(rr).skip(0) =~= s5.text_of(q5)
            + s5.text_of(rr));
        assert(s6.text_of(r2) =~= self.node_text(x) + self.node_text(n).skip(local) + self.text_of(rr));
        assert(s5.metric_sum(q5, false) == xc + tc && s5.metric_sum(q5, true) == xl + tl);
        assert(self.metric_sum(q, false) == self.node_metric(x, false)) by {
            assert(q.drop_first() =~= Seq::<usize>::empty());
        }
        assert(self.metric_sum(q, true) == self.node_metric(x, true)) by {
            assert(q.drop_first() =~= Seq::<usize>::empty());
        }
        assert forall|m: usize| #[trigger] l.contains(m) implies !r2.contains(m) by {
            if r2.contains(m) {
                lemma_in_concat(rr, q5, m);
                if q5.contains(m) {
                    let k = q5.index_of(m);
                }
                assert(s5.node_arena().is_live(m));
            }
        }
        assert(fin.piece_at(fin.node_at(n).piece_index) == s5.piece_at(s5.node_at(n).piece_index));
        self.lemma_split_tree(fin, n, h, pos, x, xc, xl, tl, new_right);
        // the frame
        assert forall|m: usize| #[trigger]
            self.node_arena().is_live(m) && !(rr + q + seq![n]).contains(m) implies s6.node_arena().is_live(m)
            && s6.node_at(m) == self.node_at(m) by {
            lemma_in_concat(rr + q, seq![n], m);
            lemma_in_concat(rr, q, m);
            lemma_in_one(n, m);
            lemma_in_concat(rr, q5, m);
            if two.contains(m) {
                let k = two.index_of(m);
            }
            if q5.contains(m) {
                let k = q5.index_of(m);
            }
        }
        assert forall|m: usize| #[trigger] r2.contains(m) implies rr.contains(m) || q.contains(m)
            || !self.node_arena().is_live(m) by {
            lemma_in_concat(rr, q5, m);
            if q5.contains(m) {
                let k = q5.index_of(m);
            }
        }
        self.lemma_step_frame(s6, fin, n, h, rr, r2, l, q);
    }

    /// Text appended to the append buffer leaves every piece as it was.
    proof fn lemma_grown_append(&self, new: PieceTable, v: Seq<char>)
        requires
            self.tables_ok(),
            self.is_subtree(self.root()),
            new.original() == self.original(),
            new.piece_arena() == self.piece_arena(),
            new.node_arena() == self.node_arena(),
            new.root() == self.root(),
            new.depth_bound() == self.depth_bound(),
            new.appended().wf(),
            new.appended().text() == self.appended().text() + v,
            new.appended().starts().len() >= self.appended().starts().len(),
            forall|i: int|
                0 <= i < self.appended().starts().len() ==> #[trigger] new.appended().starts()[i]
                    == self.appended().starts()[i],
            forall|i: int|
                self.appended().starts().len() <= i < new.appended().starts().len()
                    ==> #[trigger] new.appended().starts()[i] >= self.appended().text().len(),
        ensures
            new.tables_ok(),
            new.is_subtree(new.root()),
            new.subtree(new.root()) == self.subtree(self.root()),
            new.text() == self.text(),
            new.metric_sum(new.subtree(new.root()), true) == self.metric_sum(
                self.subtree(self.root()),
                true,
            ),
            new.metric_sum(new.subtree(new.root()), false) == self.metric_sum(
                self.subtree(self.root()),
                false,
            ),
    {
        let w = self.subtree(self.root());
        self.lemma_members(self.root(), self.depth_bound());
        assert forall|m: usize| #[trigger] w.contains(m) implies self.agrees_on(&new, m) by {
            let p = self.piece_at(self.node_at(m).piece_index);
            let ob = self.buffer_of(p);
            let nb = new.buffer_of(p);
            lemma_line_starts_shape(ob.text());
            if p.append {
                assert(nb.is_normal(p.end)) by {
                    assert forall|j: int|
                        p.end.linebreak_index < j < nb.starts().len() implies #[trigger] nb.starts()[j]
                        > nb.index_of(p.end) by {
                        if j < ob.starts().len() {
                            assert(ob.starts()[j] > ob.index_of(p.end));
                        }
                    }
                }
                assert(nb.text().subrange(ob.index_of(p.start), ob.index_of(p.end) + 1)
                    =~= ob.text().subrange(ob.index_of(p.start), ob.index_of(p.end) + 1));
            }
        }
        self.lemma_frame(&new, self.root(), self.depth_bound());
        assert forall|k: int| 0 <= k < w.len() implies self.agrees_on(&new, #[trigger] w[k]) by {
            assert(w.contains(w[k]));
        }
        self.lemma_sums_agree(&new, w);
    }

    /// A fresh leaf `x` over a piece in bounds is ready to go into the tree at
    /// any offset up to the document's length.
    proof fn lemma_leaf_ready(&self, x: usize, offset: int, xc: int, xl: int)
        requires
            self.tables_ok(),
            self.is_subtree(self.root()),
            x != 0,
            self.node_arena().is_live(x),
            !self.subtree(self.root()).contains(x),
            self.node_at(x).left_index == 0,
            self.node_at(x).right_index == 0,
            self.node_at(x).left_chars == 0,
            self.node_at(x).left_linebreaks == 0,
            self.piece_arena().is_live(self.node_at(x).piece_index),
            self.piece_ok(self.piece_at(self.node_at(x).piece_index)),
            xc == self.node_metric(x, false),
            xl == self.node_metric(x, true),
            0 <= offset <= self.metric_sum(self.subtree(self.root()), false),
            self.metric_sum(self.subtree(self.root()), false) + xc <= usize::MAX,
            self.metric_sum(self.subtree(self.root()), true) + xl <= usize::MAX,
        ensures
            self.insert_ready(self.root(), self.depth_bound(), offset, x, xc, xl),
            self.in_order(x, 2) == seq![x],
            self.text_of(seq![x]) == self.node_text(x),
    {
        reveal(PieceTable::insert_ready);
        assert(self.in_order(0, 1) =~= Seq::<usize>::empty());
        assert(self.in_order(0, 0) =~= Seq::<usize>::empty());
        assert(self.in_order(x, 2) =~= seq![x]);
        let one: Seq<usize> = seq![x];
        assert(one[0] == x);
        assert(one.drop_first() =~= Seq::<usize>::empty());
        assert(self.text_of(one.drop_first()) =~= Seq::<char>::empty());
        assert(self.metric_sum(one.drop_first(), true) == 0);
        assert(self.metric_sum(one.drop_first(), false) == 0);
        assert(self.metric_sum(self.in_order(0, 1), true) == 0);
        assert(self.metric_sum(self.in_order(0, 1), false) == 0);
        assert(self.tree_ok(0, 1));
        assert(self.tree_ok(x, 2));
        assert forall|m: usize| #[trigger] self.in_order(x, 2).contains(m) implies !self.subtree(
            self.root(),
        ).contains(m) by {
            lemma_in_one(x, m);
        }
    }

    /// After the insertion, the table with its new root is well formed and
    /// holds the text with `x`'s text put in at `offset`.
    proof fn lemma_insert_wrapup(
        &self,
        mid: PieceTable,
        fin: PieceTable,
        x: usize,
        offset: int,
        xc: int,
        xl: int,
        r: usize,
    )
        requires
            self.inserted(mid, self.root(), self.depth_bound(), offset, x, xc, xl, r),
            self.in_order(x, 2) == seq![x],
            self.metric_sum(self.subtree(self.root()), false) + xc <= usize::MAX,
            self.metric_sum(self.subtree(self.root()), true) + xl <= usize::MAX,
            fin.node_arena() == mid.node_arena(),
            fin.piece_arena() == mid.piece_arena(),
            fin.original() == mid.original(),
            fin.appended() == mid.appended(),
            fin.root() == r,
            fin.depth_bound() == self.depth_bound() + 2,
        ensures
            fin.wf(),
            fin.text() == self.text().take(offset) + self.text_of(seq![x]) + self.text().skip(
                offset,
            ),
    {
        reveal(PieceTable::inserted);
        let h2 = self.depth_bound() + 2;
        assert(mid.nodes_kept(&fin, Seq::<usize>::empty()));
        assert(mid.pieces_kept(&fin));
        mid.lemma_kept(&fin, r, h2, Seq::<usize>::empty());
    }

    /// Going down into a child of `n` keeps what the insertion needs.
    proof fn lemma_child_ready(
        &self,
        n: usize,
        h: nat,
        pos: int,
        x: usize,
        xc: int,
        xl: int,
        left: bool,
    )
        requires
            self.insert_ready(n, h, pos, x, xc, xl),
            n != 0,
            left ==> pos <= self.node_at(n).left_chars,
            !left ==> pos >= self.node_at(n).left_chars + self.node_metric(n, false),
        ensures
            h > 0,
            ({
                let c = if left {
                    self.node_at(n).left_index
                } else {
                    self.node_at(n).right_index
                };
                let p = if left {
                    pos
                } else {
                    pos - self.node_at(n).left_chars - self.node_metric(n, false)
                };
                &&& self.insert_ready(c, (h - 1) as nat, p, x, xc, xl)
                &&& !(self.in_order(c, (h - 1) as nat) + self.in_order(x, 2)).contains(n)
                &&& self.node_arena().is_live(n)
                &&& self.node_at(n).left_chars + xc <= usize::MAX
                &&& self.node_at(n).left_linebreaks + xl <= usize::MAX
            }),
    {
        reveal(PieceTable::insert_ready);
        let nd = self.node_at(n);
        let l = self.in_order(nd.left_index, (h - 1) as nat);
        let rr = self.in_order(nd.right_index, (h - 1) as nat);
        let whole = self.in_order(n, h);
        let q = self.in_order(x, 2);
        assert(whole == l + seq![n] + rr);
        self.lemma_three(l, n, rr);
        self.lemma_metric_nonneg(l, true);
        self.lemma_metric_nonneg(l, false);
        self.lemma_metric_nonneg(rr, true);
        self.lemma_metric_nonneg(rr, false);
        self.lemma_metric_nonneg(seq![n], true);
        self.lemma_metric_nonneg(seq![n], false);
        assert(seq![n][0] == n);
        assert forall|m: usize| #[trigger] l.contains(m) implies whole.contains(m) by {
            assert(whole[l.index_of(m)] == m);
        }
        assert forall|m: usize| #[trigger] rr.contains(m) implies whole.contains(m) by {
            assert(whole[l.len() + 1 + rr.index_of(m)] == m);
        }
        assert(whole[l.len() as int] == n);
        assert(whole.contains(n));
        lemma_not_in_concat(l, q, n);
        lemma_not_in_concat(rr, q, n);
    }

    proof fn lemma_metric_nonneg(&self, s: Seq<usize>, lines: bool)
        ensures
            self.metric_sum(s, lines) >= 0,
            forall|k: int| 0 <= k < s.len() ==> #[trigger] self.node_metric(s[k], lines) >= 0,
        decreases s.len(),
    {
        if s.len() > 0 {
            self.lemma_metric_nonneg(s.drop_first(), lines);
            assert forall|k: int| 0 <= k < s.len() implies #[trigger] self.node_metric(s[k], lines)
                >= 0 by {
                if k > 0 {
                    assert(s[k] == s.drop_first()[k - 1]);
                }
            }
        }
    }

    proof fn lemma_sum_concat(&self, a: Seq<usize>, b: Seq<usize>, lines: bool)
        ensures
            self.metric_sum(a + b, lines) == self.metric_sum(a, lines) + self.metric_sum(b, lines),
        decreases a.len(),
    {
        if a.len() > 0 {
            assert((a + b).drop_first() =~= a.drop_first() + b);
            self.lemma_sum_concat(a.drop_first(), b, lines);
        } else {
            assert(a + b =~= b);
        }
    }

    proof fn lemma_text_concat(&self, a: Seq<usize>, b: Seq<usize>)
        ensures
            self.text_of(a + b) == self.text_of(a) + self.text_of(b),
        decreases a.len(),
    {
        if a.len() > 0 {
            assert((a + b).drop_first() =~= a.drop_first() + b);
            self.lemma_text_concat(a.drop_first(), b);
            assert(self.text_of(a + b) =~= self.text_of(a) + self.text_of(b));
        } else {
            assert(a + b =~= b);
            assert(self.text_of(a + b) =~= self.text_of(a) + self.text_of(b));
        }
    }

    proof fn lemma_locate_concat(&self, a: Seq<usize>, b: Seq<usize>, target: int, lines: bool)
        requires
            target >= 0,
        ensures
            self.locate(a + b, target, lines) == if target < self.metric_sum(a, lines) {
                self.locate(a, target, lines)
            } else {
                self.locate(b, target - self.metric_sum(a, lines), lines)
            },
        decreases a.len(),
    {
        if a.len() > 0 {
            assert((a + b).drop_first() =~= a.drop_first() + b);
            assert((a + b)[0] == a[0]);
            assert((a + b).len() > 0);
            self.lemma_metric_nonneg(a, lines);
            self.lemma_metric_nonneg(a.drop_first(), lines);
            if target >= self.node_metric(a[0], lines) {
                self.lemma_locate_concat(
                    a.drop_first(),
                    b,
                    target - self.node_metric(a[0], lines),
                    lines,
                );
            }
        } else {
            assert(a + b =~= b);
        }
    }

    /// Within the units of `s` some node of `s` is found; past them none is.
    proof fn lemma_locate_found(&self, s: Seq<usize>, target: int, lines: bool)
        requires
            target >= 0,
            forall|k: int| 0 <= k < s.len() ==> s[k] != 0,
        ensures
            (self.locate(s, target, lines) == 0) == (target >= self.metric_sum(s, lines)),
            self.locate(s, target, lines) != 0 ==> s.contains(self.locate(s, target, lines)),
        decreases s.len(),
    {
        if s.len() > 0 {
            self.lemma_metric_nonneg(s, lines);
            self.lemma_metric_nonneg(s.drop_first(), lines);
            if target >= self.node_metric(s[0], lines) {
                assert forall|k: int| 0 <= k < s.drop_first().len() implies s.drop_first()[k] != 0 by {
                    assert(s.drop_first()[k] == s[k + 1]);
                }
                self.lemma_locate_found(
                    s.drop_first(),
                    target - self.node_metric(s[0], lines),
                    lines,
                );
                let r = self.locate(s, target, lines);
                if r != 0 {
                    let k = s.drop_first().index_of(r);
                    assert(s[k + 1] == r);
                }
            } else {
                assert(s[0] != 0);
                assert(s.contains(s[0]));
            }
        }
    }

    /// `other` gives node `m` the same node, piece counts and text as `self`.
    pub open spec fn agrees_on(&self, other: &PieceTable, m: usize) -> bool {
        &&& other.node_at(m) == self.node_at(m)
        &&& other.node_arena().is_live(m)
        &&& other.piece_arena().is_live(self.node_at(m).piece_index)
        &&& other.piece_ok(other.piece_at(self.node_at(m).piece_index))
        &&& other.node_metric(m, true) == self.node_metric(m, true)
        &&& other.node_metric(m, false) == self.node_metric(m, false)
        &&& other.node_text(m) == self.node_text(m)
    }

    proof fn lemma_sums_agree(&self, other: &PieceTable, s: Seq<usize>)
        requires
            forall|k: int| 0 <= k < s.len() ==> self.agrees_on(other, #[trigger] s[k]),
        ensures
            other.metric_sum(s, true) == self.metric_sum(s, true),
            other.metric_sum(s, false) == self.metric_sum(s, false),
            other.text_of(s) == self.text_of(s),
        decreases s.len(),
    {
        if s.len() > 0 {
            assert(self.agrees_on(other, s[0]));
            assert forall|k: int| 0 <= k < s.drop_first().len() implies self.agrees_on(
                other,
                #[trigger] s.drop_first()[k],
            ) by {
                assert(s.drop_first()[k] == s[k + 1]);
            }
            self.lemma_sums_agree(other, s.drop_first());
        }
    }

    /// A subtree stays as it is in `other` where `other` agrees on its nodes.
    proof fn lemma_frame(&self, other: &PieceTable, n: usize, h: nat)
        requires
            self.tree_ok(n, h),
            forall|m: usize| #[trigger] self.in_order(n, h).contains(m) ==> self.agrees_on(other, m),
        ensures
            other.in_order(n, h) == self.in_order(n, h),
            other.tree_ok(n, h),
        decreases h,
    {
        if n != 0 {
            let nd = self.node_at(n);
            let l = self.in_order(nd.left_index, (h - 1) as nat);
            let r = self.in_order(nd.right_index, (h - 1) as nat);
            let whole = self.in_order(n, h);
            assert(whole == l + seq![n] + r);
            assert(whole[l.len() as int] == n);
            assert(whole.contains(n));
            assert forall|m: usize| #[trigger] l.contains(m) implies self.agrees_on(other, m) by {
                let k = l.index_of(m);
                assert(whole[k] == m);
                assert(whole.contains(m));
            }
            assert forall|m: usize| #[trigger] r.contains(m) implies self.agrees_on(other, m) by {
                let k = r.index_of(m);
                assert(whole[l.len() + 1 + k] == m);
                assert(whole.contains(m));
            }
            self.lemma_frame(other, nd.left_index, (h - 1) as nat);
            self.lemma_frame(other, nd.right_index, (h - 1) as nat);
            assert forall|k: int| 0 <= k < l.len() implies self.agrees_on(other, #[trigger] l[k]) by {
                assert(l.contains(l[k]));
            }
            self.lemma_sums_agree(other, l);
        }
    }

    /// Looking one level deeper changes nothing in a subtree of bounded depth.
    proof fn lemma_deeper(&self, n: usize, h: nat)
        requires
            self.tree_ok(n, h),
        ensures
            self.tree_ok(n, h + 1),
            self.in_order(n, h + 1) == self.in_order(n, h),
        decreases h,
    {
        if n != 0 {
            let nd = self.node_at(n);
            self.lemma_deeper(nd.left_index, (h - 1) as nat);
            self.lemma_deeper(nd.right_index, (h - 1) as nat);
        }
    }

    /// The text of nodes whose pieces are in bounds has as many chars as they count.
    proof fn lemma_text_len(&self, s: Seq<usize>)
        requires
            self.original().wf(),
            self.appended().wf(),
            forall|m: usize| #[trigger]
                s.contains(m) ==> self.piece_ok(self.piece_at(self.node_at(m).piece_index)),
        ensures
            self.text_of(s).len() == self.metric_sum(s, false),
        decreases s.len(),
    {
        if s.len() > 0 {
            let p = self.piece_at(self.node_at(s[0]).piece_index);
            let b = self.buffer_of(p);
            assert(s.contains(s[0]));
            assert(self.piece_ok(p));
            assert(b.in_bounds(p.end));
            lemma_line_starts_shape(b.text());
            assert(self.node_text(s[0]).len() == self.node_metric(s[0], false));
            assert forall|m: usize| #[trigger] s.drop_first().contains(m) implies self.piece_ok(
                self.piece_at(self.node_at(m).piece_index),
            ) by {
                let k = s.drop_first().index_of(m);
                assert(s[k + 1] == m);
                assert(s.contains(m));
            }
            self.lemma_text_len(s.drop_first());
        }
    }

    /// Every node of a well-formed subtree is live, with a live piece in bounds.
    proof fn lemma_members(&self, n: usize, h: nat)
        requires
            self.tree_ok(n, h),
        ensures
            forall|m: usize| #[trigger]
                self.in_order(n, h).contains(m) ==> m != 0 && self.node_arena().is_live(m)
                    && self.piece_arena().is_live(self.node_at(m).piece_index) && self.piece_ok(
                    self.piece_at(self.node_at(m).piece_index),
                ),
        decreases h,
    {
        if n != 0 {
            let nd = self.node_at(n);
            let l = self.in_order(nd.left_index, (h - 1) as nat);
            let r = self.in_order(nd.right_index, (h - 1) as nat);
            self.lemma_members(nd.left_index, (h - 1) as nat);
            self.lemma_members(nd.right_index, (h - 1) as nat);
            assert forall|m: usize| #[trigger] self.in_order(n, h).contains(m) implies m != 0
                && self.node_arena().is_live(m) && self.piece_arena().is_live(
                self.node_at(m).piece_index,
            ) && self.piece_ok(self.piece_at(self.node_at(m).piece_index)) by {
                let w = self.in_order(n, h);
                assert(w == l + seq![n] + r);
                let k = w.index_of(m);
                if k < l.len() {
                    assert(l[k] == m);
                    assert(l.contains(m));
                } else if k > l.len() {
                    assert(r[k - l.len() - 1] == m);
                    assert(r.contains(m));
                }
            }
        }
    }

    /// A subtree none of whose nodes `new` may change stays as it is in `new`.
    proof fn lemma_kept(&self, new: &PieceTable, n: usize, h: nat, except: Seq<usize>)
        requires
            self.tree_ok(n, h),
            self.nodes_kept(new, except),
            self.pieces_kept(new),
            forall|m: usize| #[trigger] self.in_order(n, h).contains(m) ==> !except.contains(m),
        ensures
            new.in_order(n, h) == self.in_order(n, h),
            new.tree_ok(n, h),
            new.metric_sum(self.in_order(n, h), true) == self.metric_sum(self.in_order(n, h), true),
            new.metric_sum(self.in_order(n, h), false) == self.metric_sum(
                self.in_order(n, h),
                false,
            ),
            new.text_of(self.in_order(n, h)) == self.text_of(self.in_order(n, h)),
    {
        self.lemma_members(n, h);
        let w = self.in_order(n, h);
        assert forall|m: usize| #[trigger] w.contains(m) implies self.agrees_on(&new, m) by {
            assert(self.node_arena().is_live(m));
            assert(self.piece_arena().is_live(self.node_at(m).piece_index));
        }
        self.lemma_frame(new, n, h);
        assert forall|k: int| 0 <= k < w.len() implies self.agrees_on(&new, #[trigger] w[k]) by {
            assert(w.contains(w[k]));
        }
        self.lemma_sums_agree(new, w);
    }

    proof fn lemma_deeper_by(&self, n: usize, h: nat, k: nat)
        requires
            self.tree_ok(n, h),
        ensures
            self.tree_ok(n, h + k),
            self.in_order(n, h + k) == self.in_order(n, h),
        decreases k,
    {
        if k > 0 {
            self.lemma_deeper_by(n, h, (k - 1) as nat);
            self.lemma_deeper(n, (h + k - 1) as nat);
        }
    }

    proof fn lemma_three(&self, a: Seq<usize>, n: usize, b: Seq<usize>)
        ensures
            self.text_of(a + seq![n] + b) == self.text_of(a) + self.node_text(n) + self.text_of(b),
            self.metric_sum(a + seq![n] + b, true) == self.metric_sum(a, true) + self.node_metric(
                n,
                true,
            ) + self.metric_sum(b, true),
            self.metric_sum(a + seq![n] + b, false) == self.metric_sum(a, false) + self.node_metric(
                n,
                false,
            ) + self.metric_sum(b, false),
    {
        let mid: Seq<usize> = seq![n];
        self.lemma_text_concat(a + mid, b);
        self.lemma_text_concat(a, mid);
        self.lemma_sum_concat(a + mid, b, true);
        self.lemma_sum_concat(a, mid, true);
        self.lemma_sum_concat(a + mid, b, false);
        self.lemma_sum_concat(a, mid, false);
        assert(mid.drop_first() =~= Seq::<usize>::empty());
        assert(self.text_of(mid.drop_first()) =~= Seq::<char>::empty());
        assert(self.text_of(mid) =~= self.node_text(n));
        assert(self.metric_sum(mid.drop_first(), true) == 0);
        assert(self.metric_sum(mid.drop_first(), false) == 0);
    }

    proof fn lemma_in_order_nonzero(&self, n: usize, h: nat)
        ensures
            forall|k: int| 0 <= k < self.in_order(n, h).len() ==> #[trigger] self.in_order(n, h)[k]
                != 0,
        decreases h,
    {
        if n != 0 && h > 0 {
            let nd = self.node_at(n);
            self.lemma_in_order_nonzero(nd.left_index, (h - 1) as nat);
            self.lemma_in_order_nonzero(nd.right_index, (h - 1) as nat);
            let l = self.in_order(nd.left_index, (h - 1) as nat);
            let r = self.in_order(nd.right_index, (h - 1) as nat);
            assert forall|k: int| 0 <= k < self.in_order(n, h).len() implies #[trigger] self.in_order(
                n,
                h,
            )[k] != 0 by {
                if k < l.len() {
                    assert(self.in_order(n, h)[k] == l[k]);
                } else if k > l.len() {
                    assert(self.in_order(n, h)[k] == r[k - l.len() - 1]);
                }
            }
        }
    }

    /// Splits the subtree at `n` into its left subtree, `n` and its right subtree.
    proof fn lemma_unfold(&self, n: usize, h: nat, target: int, lines: bool)
        requires
            n != 0,
            target >= 0,
            self.tree_ok(n, h),
        ensures
            h > 0,
            ({
                let nd = self.node_at(n);
                let l = self.in_order(nd.left_index, (h - 1) as nat);
                let r = self.in_order(nd.right_index, (h - 1) as nat);
                &&& self.metric_sum(self.in_order(n, h), lines) == self.metric_sum(l, lines)
                    + self.node_metric(n, lines) + self.metric_sum(r, lines)
                &&& self.locate(self.in_order(n, h), target, lines) == if target < self.metric_sum(
                    l,
                    lines,
                ) {
                    self.locate(l, target, lines)
                } else if target < self.metric_sum(l, lines) + self.node_metric(n, lines) {
                    n
                } else {
                    self.locate(
                        r,
                        target - self.metric_sum(l, lines) - self.node_metric(n, lines),
                        lines,
                    )
                }
                &&& self.metric_sum(l, lines) >= 0
                &&& self.metric_sum(r, lines) >= 0
                &&& self.node_metric(n, lines) >= 0
            }),
    {
        let nd = self.node_at(n);
        let l = self.in_order(nd.left_index, (h - 1) as nat);
        let r = self.in_order(nd.right_index, (h - 1) as nat);
        let mid: Seq<usize> = seq![n];
        assert(h > 0);
        assert(self.in_order(n, h) =~= l + mid + r);
        assert(mid[0] == n);
        assert(mid.drop_first() =~= Seq::<usize>::empty());
        assert(self.metric_sum(mid, lines) == self.node_metric(n, lines) + self.metric_sum(
            mid.drop_first(),
            lines,
        ));
        assert(self.metric_sum(mid.drop_first(), lines) == 0);
        assert(self.locate(mid, target - self.metric_sum(l, lines), lines) == if target
            - self.metric_sum(l, lines) < self.node_metric(n, lines) {
            n
        } else {
            self.locate(
                mid.drop_first(),
                target - self.metric_sum(l, lines) - self.node_metric(n, lines),
                lines,
            )
        });
        assert(self.locate(mid.drop_first(), target - self.metric_sum(l, lines) - self.node_metric(n, lines), lines) == 0);
        self.lemma_sum_concat(l + mid, r, lines);
        self.lemma_sum_concat(l, mid, lines);
        self.lemma_locate_concat(l + mid, r, target, lines);
        self.lemma_locate_concat(l, mid, target, lines);
        self.lemma_metric_nonneg(l, lines);
        self.lemma_metric_nonneg(r, lines);
        self.lemma_metric_nonneg(mid, lines);
    }
}

/// Piece table functions
impl PieceTable {
    pub fn new(content: &str) -> (r: Self)
        ensures
            r.wf(),
            r.original().text() == content@,
            r.appended().text() == Seq::<char>::empty(),
            r.text() == content@,
            content@.len() == 0 ==> r.root() == 0 && r.node_arena().live_count() == 1
                && r.piece_arena().live_count() == 1,
            content@.len() > 0 ==> r.root() != 0 && r.subtree(r.root()) == seq![r.root()]
                && r.node_arena().live_count() == 2 && r.piece_arena().live_count() == 2,
            content@.len() > 0 ==> r.node_metric(r.root(), false) == content@.len()
                && r.node_metric(r.root(), true) == line_starts(content@).len(),
    {
        let mut result = PieceTable {
            root_index: 0,
            original_buffer: Buffer::new(content),
            append_buffer: Buffer::new(""),
            pieces: Arena::new(),
            nodes: Arena::new(),
            height: Ghost(0),
        };
        proof {
            reveal_strlit("");
        }
        result.pieces.allocate(
            Piece { start: BufferPosition::new(0, 0), end: BufferPosition::new(0, 0), append: false },
        );
        result.nodes.allocate(
            Node {
                piece_index: 0,
                rank: 0,
                left_linebreaks: 0,
                left_chars: 0,
                parent_index: 0,
                left_index: 0,
                right_index: 0,
            },
        );
        if !content.is_empty() {
            let piece_index = result.pieces.allocate(
                Piece {
                    start: result.original_buffer.position_first(),
                    end: result.original_buffer.position_last(),
                    append: false,
                },
            );
            let node_index = result.nodes.allocate(
                Node {
                    piece_index,
                    rank: 0,
                    left_linebreaks: 0,
                    left_chars: 0,
                    parent_index: 0,
                    left_index: 0,
                    right_index: 0,
                },
            );
            result.root_index = node_index;
            result.height = Ghost(1);
            proof {
                let b = result.original_buffer;
                lemma_full_range_counts(&b);
                let s = result.subtree(node_index);
                assert(node_index == 1);
                assert(result.depth_bound() == 1);
                assert(result.node_at(node_index).left_index == 0);
                assert(result.node_at(node_index).right_index == 0);
                assert(result.in_order(0, 0) =~= Seq::<usize>::empty());
                assert(s =~= seq![node_index]);
                assert(s.drop_first() =~= Seq::<usize>::empty());
                assert(result.piece_at(piece_index).start == (BufferPosition {
                    linebreak_index: 0,
                    char_offset: 0,
                }));
                assert(result.piece_at(piece_index).end == b.last_position());
                assert(b.text().subrange(0, b.text().len() as int) =~= b.text());
                assert(result.node_text(node_index) == b.text());
                assert(result.text_of(s.drop_first()) == Seq::<char>::empty());
                assert(result.text_of(s) == result.node_text(node_index) + result.text_of(
                    s.drop_first(),
                ));
                assert(result.metric_sum(s.drop_first(), false) == 0);
                assert(result.metric_sum(s.drop_first(), true) == 0);
                assert(result.metric_sum(s, true) == result.node_metric(node_index, true));
                assert(result.metric_sum(s, false) == result.node_metric(node_index, false));
                assert(result.tree_ok(0, 0));
                assert(result.node_arena().is_live(node_index));
                assert(result.piece_arena().is_live(piece_index));
                assert(result.piece_ok(result.piece_at(piece_index)));
                assert(result.tree_ok(node_index, 1));
                assert(result.is_subtree(node_index));
                assert(result.text() =~= content@);
            }
        }
        proof {
            assert(result.original().wf());
            assert(result.appended().wf());
            assert(result.piece_arena().wf());
            assert(result.node_arena().wf());
            assert(result.piece_arena().is_live(0));
            assert(result.node_arena().is_live(0));
            assert(result.is_subtree(result.root()));
        }
        result
    }

    pub fn root_index(&self) -> (r: usize)
        ensures
            r == self.root(),
    {
        self.root_index
    }

    pub fn original_buffer(&self) -> (r: &Buffer)
        ensures
            *r == self.original(),
    {
        &self.original_buffer
    }

    pub fn append_buffer(&self) -> (r: &Buffer)
        ensures
            *r == self.appended(),
    {
        &self.append_buffer
    }

    pub fn pieces(&self) -> (r: &Arena<Piece>)
        ensures
            *r == self.piece_arena(),
    {
        &self.pieces
    }

    pub fn nodes(&self) -> (r: &Arena<Node>)
        ensures
            *r == self.node_arena(),
    {
        &self.nodes
    }

    fn get_piece(&self, index: usize) -> (r: &Piece)
        requires
            self.piece_arena().is_live(index),
        ensures
            *r == self.piece_at(index),
    {
        self.pieces.get(index)
    }

    fn get_piece_mut(&mut self, index: usize) -> (r: &mut Piece)
        requires
            old(self).piece_arena().is_live(index),
        ensures
            *r == old(self).piece_at(index),
            final(self).piece_arena().slots() == old(self).piece_arena().slots().update(
                index as int,
                *final(r),
            ),
            final(self).piece_arena().free_stack() == old(self).piece_arena().free_stack(),
            final(self).node_arena() == old(self).node_arena(),
            final(self).original() == old(self).original(),
            final(self).appended() == old(self).appended(),
            final(self).root() == old(self).root(),
    {
        self.pieces.get_mut(index)
    }
}

/// Piece tree functions
impl PieceTable {
    fn get_node(&self, index: usize) -> (r: &Node)
        requires
            self.node_arena().is_live(index),
        ensures
            *r == self.node_at(index),
    {
        self.nodes.get(index)
    }

    fn get_node_mut(&mut self, index: usize) -> (r: &mut Node)
        requires
            old(self).node_arena().is_live(index),
        ensures
            *r == old(self).node_at(index),
            final(self).node_arena().slots() == old(self).node_arena().slots().update(
                index as int,
                *final(r),
            ),
            final(self).node_arena().free_stack() == old(self).node_arena().free_stack(),
            final(self).piece_arena() == old(self).piece_arena(),
            final(self).original() == old(self).original(),
            final(self).appended() == old(self).appended(),
            final(self).root() == old(self).root(),
    {
        self.nodes.get_mut(index)
    }

    /// Search for node by line index
    pub fn search_node_line(&self, node: usize, line: usize) -> (r: usize)
        requires
            self.wf(),
            self.is_subtree(node),
        ensures
            r == self.locate(self.subtree(node), line as int, true),
            (r == 0) == (line >= self.metric_sum(self.subtree(node), true)),
            r != 0 ==> self.subtree(node).contains(r),
    {
        proof {
            self.lemma_in_order_nonzero(node, self.depth_bound());
            self.lemma_locate_found(self.subtree(node), line as int, true);
        }
        let ghost target = self.locate(self.subtree(node), line as int, true);
        let ghost mut h = self.depth_bound();
        let mut node_ind: usize = node;
        let mut line = line;
        while node_ind > 0
            invariant
                self.wf(),
                self.tree_ok(node_ind, h),
                self.metric_sum(self.in_order(node_ind, h), true) <= usize::MAX,
                self.locate(self.in_order(node_ind, h), line as int, true) == target,
            ensures
                node_ind == target,
            decreases h,
        {
            proof {
                self.lemma_unfold(node_ind, h, line as int, true);
            }
            let node = self.get_node(node_ind);
            let own = node.linebreaks_count(self);
            // Traverse left subtree
            if line < node.left_linebreaks {
                node_ind = node.left_index;
                proof {
                    h = (h - 1) as nat;
                }
            }
            // Found key match
             else if line < node.left_linebreaks + own {
                break ;
            }
            // Traverse right subtree
             else {
                line -= node.left_linebreaks + own;
                node_ind = node.right_index;
                proof {
                    h = (h - 1) as nat;
                }
            }
        }
        node_ind
    }

    /// Search for node by char index
    pub fn search_node_char(&self, node: usize, char_index: usize) -> (r: usize)
        requires
            self.wf(),
            self.is_subtree(node),
        ensures
            r == self.locate(self.subtree(node), char_index as int, false),
            (r == 0) == (char_index >= self.metric_sum(self.subtree(node), false)),
            r != 0 ==> self.subtree(node).contains(r),
    {
        proof {
            self.lemma_in_order_nonzero(node, self.depth_bound());
            self.lemma_locate_found(self.subtree(node), char_index as int, false);
        }
        let ghost target = self.locate(self.subtree(node), char_index as int, false);
        let ghost mut h = self.depth_bound();
        let mut node_ind: usize = node;
        let mut char_index = char_index;
        while node_ind > 0
            invariant
                self.wf(),
                self.tree_ok(node_ind, h),
                self.metric_sum(self.in_order(node_ind, h), false) <= usize::MAX,
                self.locate(self.in_order(node_ind, h), char_index as int, false) == target,
            ensures
                node_ind == target,
            decreases h,
        {
            proof {
                self.lemma_unfold(node_ind, h, char_index as int, false);
            }
            let node = self.get_node(node_ind);
            let own = node.chars_count(self);
            // Traverse left subtree
            if char_index < node.left_chars {
                node_ind = node.left_index;
                proof {
                    h = (h - 1) as nat;
                }
            }
            // Found key match
             else if char_index < node.left_chars + own {
                break ;
            }
            // Traverse right subtree
             else {
                char_index -= node.left_chars + own;
                node_ind = node.right_index;
                proof {
                    h = (h - 1) as nat;
                }
            }
        }
        node_ind
    }

    /// Inserts the subtree at `x` into the subtree at `n` so that its text
    /// starts at char `pos` of the subtree's text, splitting the piece that
    /// `pos` falls inside of. Returns the root of the grown subtree.
    fn insert_rec(
        &mut self,
        n: usize,
        Ghost(h): Ghost<nat>,
        pos: usize,
        x: usize,
        x_chars: usize,
        x_lines: usize,
    ) -> (r: usize)
        requires
            old(self).insert_ready(n, h, pos as int, x, x_chars as int, x_lines as int),
        ensures
            old(self).inserted(*final(self), n, h, pos as int, x, x_chars as int, x_lines as int, r),
        decreases h,
    {
        let ghost xc = x_chars as int;
        let ghost xl = x_lines as int;
        if n == 0 {
            proof {
                old(self).lemma_empty_done(h, pos as int, x, xc, xl);
            }
            return x;
        }
        proof {
            reveal(PieceTable::insert_ready);
            old(self).lemma_unfold(n, h, pos as int, false);
            old(self).lemma_members(n, h);
            old(self).lemma_members(x, 2);
        }
        let node = self.get_node(n);
        let left = node.left_index;
        let right = node.right_index;
        let left_chars = node.left_chars;
        let left_lines = node.left_linebreaks;
        let own = node.chars_count(self);
        if pos <= left_chars {
            proof {
                old(self).lemma_child_ready(n, h, pos as int, x, xc, xl, true);
            }
            let new_left = self.insert_rec(left, Ghost((h - 1) as nat), pos, x, x_chars, x_lines);
            let ghost mid = *self;
            proof {
                old(self).lemma_inserted_keeps(mid, left, (h - 1) as nat, pos as int, x, xc, xl, new_left, n);
            }
            let nm = self.get_node_mut(n);
            nm.left_index = new_left;
            nm.left_chars = left_chars + x_chars;
            nm.left_linebreaks = left_lines + x_lines;
            proof {
                let fin = *self;
                assert(mid.node_updated(&fin, n));
                old(self).lemma_left_done(mid, fin, n, h, pos as int, x, xc, xl, new_left);
            }
            n
        } else if pos >= left_chars + own {
            proof {
                old(self).lemma_child_ready(n, h, pos as int, x, xc, xl, false);
            }
            let new_right = self.insert_rec(
                right,
                Ghost((h - 1) as nat),
                pos - left_chars - own,
                x,
                x_chars,
                x_lines,
            );
            let ghost mid = *self;
            proof {
                old(self).lemma_inserted_keeps(
                    mid,
                    right,
                    (h - 1) as nat,
                    pos - left_chars - own,
                    x,
                    xc,
                    xl,
                    new_right,
                    n,
                );
            }
            let nm = self.get_node_mut(n);
            nm.right_index = new_right;
            proof {
                let fin = *self;
                assert(mid.node_updated(&fin, n));
                old(self).lemma_right_done(mid, fin, n, h, pos as int, x, xc, xl, new_right);
            }
            n
        } else {
            proof {
                let w = old(self).in_order(n, h);
                let lft = old(self).in_order(left, (h - 1) as nat);
                assert(w[lft.len() as int] == n);
                assert(w.contains(n));
                assert(old(self).in_order(0, 1) =~= Seq::<usize>::empty());
                assert(old(self).in_order(x, 2) =~= seq![x]);
                assert(old(self).in_order(x, 2)[0] == x);
                assert(old(self).in_order(x, 2).contains(x));
            }
            let (y, tail_chars, tail_lines) = self.split_node(n, Ghost(h), pos - left_chars, x);
            let ghost s5 = *self;
            proof {
                old(self).lemma_split_ready(
                    s5,
                    n,
                    h,
                    pos as int,
                    x,
                    xc,
                    xl,
                    y,
                    tail_chars as int,
                    tail_lines as int,
                );
            }
            let new_right = self.insert_rec(
                right,
                Ghost((h - 1) as nat),
                0,
                x,
                x_chars + tail_chars,
                x_lines + tail_lines,
            );
            let ghost s6 = *self;
            proof {
                s5.lemma_inserted_keeps(
                    s6,
                    right,
                    (h - 1) as nat,
                    0,
                    x,
                    xc + tail_chars,
                    xl + tail_lines,
                    new_right,
                    n,
                );
            }
            let nm = self.get_node_mut(n);
            nm.right_index = new_right;
            proof {
                let fin = *self;
                assert(s6.node_updated(&fin, n));
                old(self).lemma_split_done(
                    s5,
                    s6,
                    fin,
                    n,
                    h,
                    pos as int,
                    x,
                    xc,
                    xl,
                    y,
                    tail_chars as int,
                    tail_lines as int,
                    new_right,
                );
            }
            n
        }
    }

    /// Splits the piece of node `n` before its char `local`: `n` takes a new
    /// piece for the chars before, a new node `y` (returned with its char and
    /// line counts) takes one for the rest, and becomes the right child of `x`.
    #[verifier::rlimit(60)]
    fn split_node(&mut self, n: usize, Ghost(h): Ghost<nat>, local: usize, x: usize) -> (r: (
        usize,
        usize,
        usize,
    ))
        requires
            old(self).tables_ok(),
            old(self).tree_ok(n, h),
            n != 0,
            1 <= local < old(self).node_metric(n, false),
            x != 0,
            x != n,
            old(self).node_arena().is_live(x),
            old(self).node_at(x).left_index == 0,
            old(self).node_at(x).right_index == 0,
            old(self).piece_arena().is_live(old(self).node_at(x).piece_index),
        ensures
            final(self).tables_ok(),
            old(self).nodes_kept(final(self), seq![n, x]),
            old(self).pieces_kept(final(self)),
            forall|m: usize| #[trigger]
                old(self).node_arena().is_live(m) ==> final(self).node_arena().is_live(m),
            r.0 != 0,
            !old(self).node_arena().is_live(r.0),
            final(self).node_arena().is_live(r.0),
            final(self).node_at(n).left_index == old(self).node_at(n).left_index,
            final(self).node_at(n).right_index == old(self).node_at(n).right_index,
            final(self).node_at(n).left_chars == old(self).node_at(n).left_chars,
            final(self).node_at(n).left_linebreaks == old(self).node_at(n).left_linebreaks,
            final(self).node_at(x).left_index == 0,
            final(self).node_at(x).right_index == r.0,
            final(self).node_at(x).left_chars == old(self).node_at(x).left_chars,
            final(self).node_at(x).left_linebreaks == old(self).node_at(x).left_linebreaks,
            final(self).node_at(x).piece_index == old(self).node_at(x).piece_index,
            final(self).node_at(r.0).left_index == 0,
            final(self).node_at(r.0).right_index == 0,
            final(self).node_at(r.0).left_chars == 0,
            final(self).node_at(r.0).left_linebreaks == 0,
            final(self).piece_arena().is_live(final(self).node_at(n).piece_index),
            final(self).piece_ok(final(self).piece_at(final(self).node_at(n).piece_index)),
            final(self).piece_arena().is_live(final(self).node_at(r.0).piece_index),
            final(self).piece_ok(final(self).piece_at(final(self).node_at(r.0).piece_index)),
            final(self).node_metric(n, false) == local,
            r.1 == final(self).node_metric(r.0, false),
            r.1 == old(self).node_metric(n, false) - local,
            r.2 == final(self).node_metric(r.0, true),
            final(self).node_metric(n, true) + final(self).node_metric(r.0, true) == old(
                self,
            ).node_metric(n, true),
            final(self).node_text(n) == old(self).node_text(n).take(local as int),
            final(self).node_text(r.0) == old(self).node_text(n).skip(local as int),
            final(self).node_metric(x, false) == old(self).node_metric(x, false),
            final(self).node_metric(x, true) == old(self).node_metric(x, true),
            final(self).node_text(x) == old(self).node_text(x),
            final(self).root() == old(self).root(),
    {
        let piece_index = self.get_node(n).piece_index;
        let piece = self.get_piece(piece_index);
        let start = piece.start;
        let end = piece.end;
        let append = piece.append;
        let buffer = piece.get_buffer(self);
        let ghost b = *buffer;
        let ghost p = *piece;
        proof {
            lemma_line_starts_shape(b.text());
        }
        let split = buffer.position_to_index(start) + local;
        let before = buffer.index_to_position(split - 1);
        let after = buffer.index_to_position(split);
        let tail_chars = buffer.position_range_chars_count(after, end);
        let tail_lines = buffer.position_range_lines_count(after, end);
        proof {
            lemma_split_range(&b, start, end, before, after);
            let t = b.text();
            let i_s = b.index_of(start);
            let i_e = b.index_of(end);
            assert(t.subrange(i_s, i_e + 1).take(local as int) =~= t.subrange(i_s, split as int));
            assert(t.subrange(i_s, i_e + 1).skip(local as int) =~= t.subrange(split as int, i_e + 1));
        }
        let head_index = self.pieces.allocate(Piece { start, end: before, append });
        let tail_index = self.pieces.allocate(Piece { start: after, end, append });
        let y = self.nodes.allocate(
            Node {
                piece_index: tail_index,
                rank: 0,
                left_linebreaks: 0,
                left_chars: 0,
                parent_index: 0,
                left_index: 0,
                right_index: 0,
            },
        );
        let ghost s3 = *self;
        let xm = self.get_node_mut(x);
        xm.right_index = y;
        let ghost s4 = *self;
        let nm = self.get_node_mut(n);
        nm.piece_index = head_index;
        proof {
            let fin = *self;
            assert(y != n && y != x);
            assert(s3.node_updated(&s4, x));
            assert(s4.node_updated(&fin, n));
            assert forall|m: usize| #[trigger]
                old(self).node_arena().is_live(m) && !seq![n, x].contains(m) implies fin.node_arena().is_live(m)
                && fin.node_at(m) == old(self).node_at(m) by {
                let two: Seq<usize> = seq![n, x];
                assert(two[0] == n && two[1] == x);
                assert(m != n && m != x);
            }
            assert(fin.buffer_of(fin.piece_at(head_index)) == b);
            assert(fin.buffer_of(fin.piece_at(tail_index)) == b);
            assert(fin.buffer_of(fin.piece_at(fin.node_at(x).piece_index)) == old(self).buffer_of(
                old(self).piece_at(old(self).node_at(x).piece_index),
            ));
        }
        (y, tail_chars, tail_lines)
    }

    /// Count of chars in the document
    pub fn chars_count(&self) -> (r: usize)
        requires
            self.wf(),
        ensures
            r == self.text().len(),
            r == self.metric_sum(self.subtree(self.root()), false),
    {
        proof {
            self.lemma_members(self.root_index, self.depth_bound());
            self.lemma_text_len(self.subtree(self.root()));
        }
        let ghost total = self.metric_sum(self.subtree(self.root()), false);
        let ghost mut h = self.depth_bound();
        let mut count: usize = 0;
        let mut node_ind = self.root_index;
        while node_ind > 0
            invariant
                self.wf(),
                self.tree_ok(node_ind, h),
                total == self.metric_sum(self.subtree(self.root()), false),
                total <= usize::MAX,
                count + self.metric_sum(self.in_order(node_ind, h), false) == total,
            decreases h,
        {
            proof {
                self.lemma_unfold(node_ind, h, 0, false);
            }
            let node = self.get_node(node_ind);
            let own = node.chars_count(self);
            count = count + node.left_chars + own;
            node_ind = node.right_index;
            proof {
                h = (h - 1) as nat;
            }
        }
        count
    }

    /// Inserts `text` at char `offset` of the document: the text goes to the
    /// append buffer, and a new piece over it into the tree, splitting the
    /// piece that `offset` falls inside of. A split gives both parts new
    /// pieces; the piece they replace stays allocated.
    pub fn insert(&mut self, offset: usize, text: &str) -> (r: Result<(), EditError>)
        requires
            old(self).wf(),
            old(self).text().len() + text@.len() <= usize::MAX,
            old(self).metric_sum(old(self).subtree(old(self).root()), true) + text@.len() + 1
                <= usize::MAX,
        ensures
            final(self).wf(),
            offset > old(self).text().len() ==> r == Err::<(), EditError>(
                EditError::OffsetOutOfRange,
            ) && final(self).text() == old(self).text(),
            offset <= old(self).text().len() ==> r is Ok && final(self).text() == old(
                self,
            ).text().take(offset as int) + text@ + old(self).text().skip(offset as int),
    {
        let total = self.chars_count();
        if offset > total {
            return Err(EditError::OffsetOutOfRange);
        }
        if text.is_empty() {
            proof {
                assert(old(self).text().take(offset as int) + text@ + old(self).text().skip(
                    offset as int,
                ) =~= old(self).text());
            }
            return Ok(());
        }
        let ghost s0 = *self;
        let ghost old_len = self.append_buffer.text().len();
        let appended = self.append_buffer.append(text);
        let ghost s1 = *self;
        proof {
            s0.lemma_grown_append(s1, text@);
        }
        let (start, end) = appended.unwrap();
        let x_chars = self.append_buffer.position_range_chars_count(start, end);
        let x_lines = self.append_buffer.position_range_lines_count(start, end);
        let piece_index = self.pieces.allocate(Piece { start, end, append: true });
        let x = self.nodes.allocate(
            Node {
                piece_index,
                rank: 0,
                left_linebreaks: 0,
                left_chars: 0,
                parent_index: 0,
                left_index: 0,
                right_index: 0,
            },
        );
        let ghost s3 = *self;
        proof {
            let w = s1.subtree(s1.root());
            s1.lemma_members(s1.root(), s1.depth_bound());
            assert(s1.nodes_kept(&s3, Seq::<usize>::empty()));
            assert(s1.pieces_kept(&s3));
            s1.lemma_kept(&s3, s1.root(), s1.depth_bound(), Seq::<usize>::empty());
            assert(!w.contains(x));
            let b = s3.appended();
            lemma_line_starts_shape(b.text());
            assert(b.text().subrange(old_len as int, b.text().len() as int) =~= text@);
            assert(s3.node_text(x) == text@);
            assert(s3.subtree(s3.root()) == w);
            assert(s3.metric_sum(w, false) == s0.metric_sum(s0.subtree(s0.root()), false));
            assert(x_chars == text@.len());
            s3.lemma_leaf_ready(x, offset as int, x_chars as int, x_lines as int);
        }
        let new_root = self.insert_rec(
            self.root_index,
            Ghost(self.depth_bound()),
            offset,
            x,
            x_chars,
            x_lines,
        );
        let ghost mid = *self;
        self.root_index = new_root;
        self.height = Ghost(s3.depth_bound() + 2);
        proof {
            s3.lemma_insert_wrapup(mid, *self, x, offset as int, x_chars as int, x_lines as int, new_root);
        }
        Ok(())
    }

    /// Appends the text of the subtree at `n` to `out`.
    fn collect_text(&self, n: usize, Ghost(h): Ghost<nat>, out: &mut String)
        requires
            self.wf(),
            self.tree_ok(n, h),
        ensures
            final(out)@ == old(out)@ + self.text_of(self.in_order(n, h)),
        decreases h,
    {
        if n == 0 {
            proof {
                assert(old(out)@ + self.text_of(self.in_order(n, h)) =~= old(out)@);
            }
            return ;
        }
        let node = self.get_node(n);
        let ghost l = self.in_order(node.left_index, (h - 1) as nat);
        let ghost r = self.in_order(node.right_index, (h - 1) as nat);
        self.collect_text(node.left_index, Ghost((h - 1) as nat), out);
        let piece = self.get_piece(node.piece_index);
        let buffer = piece.get_buffer(self);
        let from = buffer.position_to_index(piece.start);
        let to = buffer.position_to_index(piece.end);
        if from <= to {
            out.append(buffer.value().as_str().substring_char(from, to + 1));
        }
        self.collect_text(node.right_index, Ghost((h - 1) as nat), out);
        proof {
            let mid: Seq<usize> = seq![n];
            assert(self.in_order(n, h) =~= l + mid + r);
            self.lemma_text_concat(l + mid, r);
            self.lemma_text_concat(l, mid);
            assert(mid.drop_first() =~= Seq::<usize>::empty());
            assert(self.text_of(mid.drop_first()) =~= Seq::<char>::empty());
            assert(self.text_of(mid) =~= self.node_text(n));
            assert(final(out)@ =~= old(out)@ + self.text_of(self.in_order(n, h)));
        }
    }

    /// The whole document, read in order from the tree.
    pub fn to_string(&self) -> (r: String)
        requires
            self.wf(),
        ensures
            r@ == self.text(),
    {
        let mut out = String::new();
        self.collect_text(self.root_index, Ghost(self.depth_bound()), &mut out);
        out
    }
}

impl Node {
    /// Count of linebreaks in node
    fn linebreaks_count(&self, table: &PieceTable) -> (r: usize)
        requires
            table.tables_ok(),
            table.piece_arena().is_live(self.piece_index),
            table.piece_ok(table.piece_at(self.piece_index)),
        ensures
            r == table.piece_metric(table.piece_at(self.piece_index), true),
    {
        let piece = table.get_piece(self.piece_index);
        piece.linebreaks_count(table)
    }

    /// Count of chars in node
    fn chars_count(&self, table: &PieceTable) -> (r: usize)
        requires
            table.tables_ok(),
            table.piece_arena().is_live(self.piece_index),
            table.piece_ok(table.piece_at(self.piece_index)),
        ensures
            r == table.piece_metric(table.piece_at(self.piece_index), false),
    {
        let piece = table.get_piece(self.piece_index);
        piece.chars_count(table)
    }
}

impl Piece {
    /// Count of linebreaks in piece
    fn linebreaks_count(&self, table: &PieceTable) -> (r: usize)
        requires
            table.tables_ok(),
            table.piece_ok(*self),
        ensures
            r == table.piece_metric(*self, true),
    {
        let buffer = self.get_buffer(table);
        buffer.position_range_lines_count(self.start, self.end)
    }

    /// Count of chars in piece
    fn chars_count(&self, table: &PieceTable) -> (r: usize)
        requires
            table.tables_ok(),
            table.piece_ok(*self),
        ensures
            r == table.piece_metric(*self, false),
    {
        let buffer = self.get_buffer(table);
        buffer.position_range_chars_count(self.start, self.end)
    }

    fn get_buffer<'a>(&'a self, table: &'a PieceTable) -> (r: &'a Buffer)
        ensures
            *r == table.buffer_of(*self),
    {
        if self.append {
            &table.append_buffer
        } else {
            &table.original_buffer
        }
    }

    fn get_buffer_mut<'a>(&'a mut self, table: &'a mut PieceTable) -> (r: &'a mut Buffer)
        ensures
            *r == old(table).buffer_of(*old(self)),
            *final(self) == *old(self),
            final(table).root() == old(table).root(),
            final(table).piece_arena() == old(table).piece_arena(),
            final(table).node_arena() == old(table).node_arena(),
            old(self).append ==> final(table).appended() == *final(r) && final(table).original()
                == old(table).original(),
            !old(self).append ==> final(table).original() == *final(r) && final(table).appended()
                == old(table).appended(),
    {
        if self.append {
            &mut table.append_buffer
        } else {
            &mut table.original_buffer
        }
    }
}

/// On an empty tree, a search by line or by char finds no node, whatever it looks for.
pub proof fn lemma_empty_table_search(t: &PieceTable, target: int, lines: bool)
    requires
        t.wf(),
        t.root() == 0,
    ensures
        t.locate(t.subtree(t.root()), target, lines) == 0,
{
}

/// A table whose tree is the single piece over its content resolves every
/// line of that content to that piece's node, and a line past the last to none.
pub proof fn lemma_single_piece_lines(t: &PieceTable, content: Seq<char>, line: int)
    requires
        t.wf(),
        t.root() != 0,
        t.subtree(t.root()) == seq![t.root()],
        t.node_metric(t.root(), true) == line_starts(content).len(),
        line >= 0,
    ensures
        t.locate(t.subtree(t.root()), line, true) == if line < line_starts(content).len() {
            t.root()
        } else {
            0
        },
{
    let s = t.subtree(t.root());
    assert(s[0] == t.root());
    assert(s.drop_first() =~= Seq::<usize>::empty());
    assert(t.locate(s.drop_first(), line - t.node_metric(t.root(), true), true) == 0);
}

/// Likewise for chars: each char of the content lies in the single piece's node.
pub proof fn lemma_single_piece_chars(t: &PieceTable, content: Seq<char>, index: int)
    requires
        t.wf(),
        t.root() != 0,
        t.subtree(t.root()) == seq![t.root()],
        t.node_metric(t.root(), false) == content.len(),
        index >= 0,
    ensures
        t.locate(t.subtree(t.root()), index, false) == if index < content.len() {
            t.root()
        } else {
            0
        },
{
    let s = t.subtree(t.root());
    assert(s[0] == t.root());
    assert(s.drop_first() =~= Seq::<usize>::empty());
    assert(t.locate(s.drop_first(), index - t.node_metric(t.root(), false), false) == 0);
}

} // verus!
