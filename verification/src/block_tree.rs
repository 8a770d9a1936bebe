//! The block tree builder: computes per-line indentation and recursively
//! partitions the surviving lines of a source text into a tree of blocks,
//! nesting a block wherever indentation strictly increases.

use vstd::prelude::*;
use vstd::string::StrSliceExecFns;
use vstd::string::StringExecFns;
use crate::chars::{chars_of, clone_string, is_space, space};
use crate::error::{LexError, LexErrorKind};
use crate::matcher::{lemma_run_end_bounds, run_end, CharClass};
use crate::token::{token_model, SpecToken, Token, TokenPosition};

verus! {

/// One line-level unit inside the block tree: a raw trimmed source line, a
/// token sequence produced by lexing such a line, or a nested block.
#[derive(Debug)]
pub enum ChunkValue {
    Source(String),
    Token(Vec<Token>),
    Block(Branch),
}

/// A chunk and its value.
#[derive(Debug)]
pub struct Chunk {
    pub value: ChunkValue,
}

impl Chunk {
    pub fn new(value: ChunkValue) -> (r: Chunk)
        ensures
            r.value == value,
    {
        Chunk { value }
    }

    pub fn value(&self) -> (r: &ChunkValue)
        ensures
            *r == self.value,
    {
        &self.value
    }
}

/// An ordered sequence of sibling chunks sharing one indentation level.
#[derive(Debug)]
pub struct Branch {
    pub value: Vec<Chunk>,
}

impl Branch {
    pub fn new(value: Vec<Chunk>) -> (r: Branch)
        ensures
            r.value == value,
    {
        Branch { value }
    }
}

/// The specification-level mirror of a chunk.
pub enum GChunk {
    Source(Seq<char>),
    Tokens(Seq<SpecToken>),
    Block(GBranch),
}

/// The specification-level mirror of a branch.
pub struct GBranch {
    pub chunks: Seq<GChunk>,
}

pub open spec fn chunk_view(c: Chunk) -> GChunk
    decreases c,
{
    match c.value {
        ChunkValue::Source(l) => GChunk::Source(l@),
        ChunkValue::Token(ts) => GChunk::Tokens(ts@.map_values(|t: Token| token_model(t))),
        ChunkValue::Block(b) => GChunk::Block(branch_view(b)),
    }
}

pub open spec fn chunks_view(cs: Seq<Chunk>) -> Seq<GChunk>
    decreases cs,
{
    if cs.len() == 0 {
        Seq::empty()
    } else {
        seq![chunk_view(cs[0])] + chunks_view(cs.drop_first())
    }
}

pub open spec fn branch_view(b: Branch) -> GBranch
    decreases b,
{
    GBranch { chunks: chunks_view(b.value@) }
}

pub proof fn lemma_chunks_view_push(cs: Seq<Chunk>, c: Chunk)
    ensures
        chunks_view(cs.push(c)) == chunks_view(cs) + seq![chunk_view(c)],
    decreases cs.len(),
{
    if cs.len() == 0 {
        assert(cs.push(c)[0] == c);
        assert(cs.push(c).drop_first() =~= Seq::<Chunk>::empty());
        assert(chunks_view(cs) == Seq::<GChunk>::empty());
        assert(chunks_view(cs.push(c).drop_first()) == Seq::<GChunk>::empty());
        assert(chunks_view(cs.push(c)) == seq![chunk_view(cs.push(c)[0])] + chunks_view(
            cs.push(c).drop_first(),
        ));
        assert(chunks_view(cs.push(c)) =~= chunks_view(cs) + seq![chunk_view(c)]);
    } else {
        assert(cs.push(c)[0] == cs[0]);
        assert(cs.push(c).drop_first() =~= cs.drop_first().push(c));
        lemma_chunks_view_push(cs.drop_first(), c);
        assert(seq![chunk_view(cs[0])] + (chunks_view(cs.drop_first()) + seq![chunk_view(c)]) =~= (
        seq![chunk_view(cs[0])] + chunks_view(cs.drop_first())) + seq![chunk_view(c)]);
    }
}

/// The rows the builder works on: each surviving line's indentation and
/// trimmed text.
pub open spec fn rows_view(v: Vec<(usize, String)>) -> Seq<(int, Seq<char>)> {
    v@.map_values(|p: (usize, String)| (p.0 as int, p.1@))
}

/// What one call of the builder produces, starting at row `c`: the row at
/// `c` fixes the branch's base indentation and becomes its first source
/// chunk, and the branch then extends as [`build_items`] says.
pub open spec fn build_rows(rows: Seq<(int, Seq<char>)>, c: int) -> (GBranch, int)
    recommends
        0 <= c < rows.len(),
    decreases rows.len() - c, 0int,
{
    if !(0 <= c < rows.len()) {
        (GBranch { chunks: Seq::empty() }, c)
    } else {
        let base = rows[c].0;
        let pr = build_items(rows, base, c + 1);
        (GBranch { chunks: seq![GChunk::Source(rows[c].1)] + pr.0 }, pr.1)
    }
}

/// How a branch with base indentation `base` extends from row `cur`: a row
/// at the base indentation joins as a sibling source chunk; a deeper row
/// opens a nested block built recursively, which consumes its own rows; a
/// shallower row closes the branch and is left for an outer call.
pub open spec fn build_items(rows: Seq<(int, Seq<char>)>, base: int, cur: int) -> (
    Seq<GChunk>,
    int,
)
    decreases rows.len() - cur, 1int,
{
    if !(0 <= cur < rows.len()) {
        (Seq::empty(), cur)
    } else if rows[cur].0 == base {
        let pr = build_items(rows, base, cur + 1);
        (seq![GChunk::Source(rows[cur].1)] + pr.0, pr.1)
    } else if rows[cur].0 < base {
        (Seq::empty(), cur)
    } else {
        let child = build_rows(rows, cur);
        if cur < child.1 <= rows.len() {
            let pr = build_items(rows, base, child.1);
            (seq![GChunk::Block(child.0)] + pr.0, pr.1)
        } else {
            (Seq::empty(), cur)
        }
    }
}

/// The whole tree from row `c`: an empty branch where no row remains.
pub open spec fn build_tree(rows: Seq<(int, Seq<char>)>, c: int) -> (GBranch, int) {
    if 0 <= c < rows.len() {
        build_rows(rows, c)
    } else {
        (GBranch { chunks: Seq::empty() }, c)
    }
}

/// The cursor a build leaves behind stays inside the rows and strictly
/// advances past the rows the branch consumed.
pub proof fn lemma_build_bounds(rows: Seq<(int, Seq<char>)>, base: int, c: int)
    requires
        0 <= c <= rows.len(),
    ensures
        c < rows.len() ==> c < build_rows(rows, c).1 <= rows.len(),
        c <= build_items(rows, base, c).1 <= rows.len(),
    decreases rows.len() - c, 1int,
{
    if c < rows.len() {
        lemma_build_rows_bounds(rows, c);
    }
    if 0 <= c < rows.len() {
        if rows[c].0 == base {
            lemma_build_bounds(rows, base, c + 1);
        } else if rows[c].0 > base {
            let child = build_rows(rows, c);
            if c < child.1 <= rows.len() {
                lemma_build_bounds(rows, base, child.1);
            }
        }
    }
}

pub proof fn lemma_build_rows_bounds(rows: Seq<(int, Seq<char>)>, c: int)
    requires
        0 <= c < rows.len(),
    ensures
        c < build_rows(rows, c).1 <= rows.len(),
    decreases rows.len() - c, 0int,
{
    lemma_build_bounds(rows, rows[c].0, c + 1);
}

/// The source lines a chunk holds, over the whole subtree, in order.
pub open spec fn gchunk_sources(c: GChunk) -> Seq<Seq<char>>
    decreases c,
{
    match c {
        GChunk::Source(l) => seq![l],
        GChunk::Tokens(_) => Seq::empty(),
        GChunk::Block(b) => gchunks_sources(b.chunks),
    }
}

pub open spec fn gchunks_sources(cs: Seq<GChunk>) -> Seq<Seq<char>>
    decreases cs,
{
    if cs.len() == 0 {
        Seq::empty()
    } else {
        gchunk_sources(cs[0]) + gchunks_sources(cs.drop_first())
    }
}

pub proof fn lemma_gchunks_sources_concat(a: Seq<GChunk>, b: Seq<GChunk>)
    ensures
        gchunks_sources(a + b) == gchunks_sources(a) + gchunks_sources(b),
    decreases a.len(),
{
    if a.len() == 0 {
        assert(a + b =~= b);
        assert(gchunks_sources(a) + gchunks_sources(b) =~= gchunks_sources(b));
    } else {
        assert((a + b)[0] == a[0]);
        assert((a + b).drop_first() =~= a.drop_first() + b);
        lemma_gchunks_sources_concat(a.drop_first(), b);
        assert(gchunk_sources(a[0]) + (gchunks_sources(a.drop_first()) + gchunks_sources(b)) =~= (
        gchunk_sources(a[0]) + gchunks_sources(a.drop_first())) + gchunks_sources(b));
    }
}

/// The trimmed text of each row of a row range, in order.
pub open spec fn row_texts(rows: Seq<(int, Seq<char>)>, lo: int, hi: int) -> Seq<Seq<char>> {
    rows.subrange(lo, hi).map_values(|p: (int, Seq<char>)| p.1)
}

pub proof fn lemma_gchunks_sources_singleton(g: GChunk)
    ensures
        gchunks_sources(seq![g]) == gchunk_sources(g),
{
    assert(seq![g][0] == g);
    assert(seq![g].drop_first() =~= Seq::<GChunk>::empty());
    assert(gchunks_sources(Seq::<GChunk>::empty()) == Seq::<Seq<char>>::empty());
    assert(gchunk_sources(g) + Seq::<Seq<char>>::empty() =~= gchunk_sources(g));
}

pub proof fn lemma_build_items_sources(rows: Seq<(int, Seq<char>)>, base: int, cur: int)
    requires
        0 <= cur <= rows.len(),
    ensures
        ({
            let pr = build_items(rows, base, cur);
            gchunks_sources(pr.0) == row_texts(rows, cur, pr.1)
        }),
    decreases rows.len() - cur, 1int,
{
    lemma_build_bounds(rows, base, cur);
    if !(0 <= cur < rows.len()) {
        assert(row_texts(rows, cur, cur) =~= Seq::<Seq<char>>::empty());
        assert(gchunks_sources(Seq::<GChunk>::empty()) == Seq::<Seq<char>>::empty());
    } else if rows[cur].0 == base {
        let pr = build_items(rows, base, cur + 1);
        lemma_build_items_sources(rows, base, cur + 1);
        lemma_gchunks_sources_concat(seq![GChunk::Source(rows[cur].1)], pr.0);
        lemma_gchunks_sources_singleton(GChunk::Source(rows[cur].1));
        assert(gchunk_sources(GChunk::Source(rows[cur].1)) == seq![rows[cur].1]);
        assert(seq![rows[cur].1] + row_texts(rows, cur + 1, pr.1) =~= row_texts(rows, cur, pr.1));
    } else if rows[cur].0 < base {
        assert(row_texts(rows, cur, cur) =~= Seq::<Seq<char>>::empty());
        assert(gchunks_sources(Seq::<GChunk>::empty()) == Seq::<Seq<char>>::empty());
    } else {
        let child = build_rows(rows, cur);
        lemma_build_rows_bounds(rows, cur);
        lemma_build_rows_sources(rows, cur);
        lemma_build_bounds(rows, base, child.1);
        let pr = build_items(rows, base, child.1);
        lemma_build_items_sources(rows, base, child.1);
        lemma_gchunks_sources_concat(seq![GChunk::Block(child.0)], pr.0);
        lemma_gchunks_sources_singleton(GChunk::Block(child.0));
        assert(row_texts(rows, cur, child.1) + row_texts(rows, child.1, pr.1) =~= row_texts(
            rows,
            cur,
            pr.1,
        ));
    }
}

pub proof fn lemma_build_rows_sources(rows: Seq<(int, Seq<char>)>, c: int)
    requires
        0 <= c < rows.len(),
    ensures
        ({
            let pr = build_rows(rows, c);
            gchunks_sources(pr.0.chunks) == row_texts(rows, c, pr.1)
        }),
    decreases rows.len() - c, 0int,
{
    let base = rows[c].0;
    let pr = build_items(rows, base, c + 1);
    lemma_build_bounds(rows, base, c + 1);
    lemma_build_items_sources(rows, base, c + 1);
    lemma_gchunks_sources_concat(seq![GChunk::Source(rows[c].1)], pr.0);
    lemma_gchunks_sources_singleton(GChunk::Source(rows[c].1));
    assert(gchunk_sources(GChunk::Source(rows[c].1)) == seq![rows[c].1]);
    assert(seq![rows[c].1] + row_texts(rows, c + 1, pr.1) =~= row_texts(rows, c, pr.1));
}

/// No row is visited twice and no row is skipped: the source chunks of the
/// tree built from row `c`, read in traversal order, are exactly the
/// trimmed texts of the rows from `c` up to the cursor the build leaves
/// behind, whatever the nesting depth the indentation produces.
pub proof fn lemma_build_tree_covers_rows(rows: Seq<(int, Seq<char>)>, c: int)
    requires
        0 <= c <= rows.len(),
    ensures
        ({
            let pr = build_tree(rows, c);
            &&& c <= pr.1 <= rows.len()
            &&& gchunks_sources(pr.0.chunks) == row_texts(rows, c, pr.1)
        }),
{
    if c < rows.len() {
        lemma_build_rows_bounds(rows, c);
        lemma_build_rows_sources(rows, c);
    } else {
        assert(row_texts(rows, c, c) =~= Seq::<Seq<char>>::empty());
        assert(gchunks_sources(Seq::<GChunk>::empty()) == Seq::<Seq<char>>::empty());
    }
}

/// Item-sequence pairs, seen from midway through a branch: what is already
/// built is prepended to what the rest of the walk produces.
pub open spec fn item_extend(prefix: Seq<GChunk>, pr: (Seq<GChunk>, int)) -> (Seq<GChunk>, int) {
    (prefix + pr.0, pr.1)
}

/// Builds the branch starting at row `cursor`, returning it together with
/// the index of the first row it did not consume.
pub fn build_from(indents: &Vec<(usize, String)>, cursor: usize) -> (r: (Branch, usize))
    ensures
        (branch_view(r.0), r.1 as int) == build_tree(rows_view(*indents), cursor as int),
        cursor < indents@.len() ==> cursor < r.1 <= indents@.len(),
        cursor >= indents@.len() ==> r.1 == cursor,
    decreases indents@.len() - cursor,
{
    let ghost rows = rows_view(*indents);
    let n = indents.len();
    if cursor >= n {
        let b = Branch::new(Vec::new());
        proof {
            assert(b.value@ =~= Seq::<Chunk>::empty());
            assert(branch_view(b) == (GBranch { chunks: Seq::<GChunk>::empty() }));
        }
        return (b, cursor);
    }
    let base: usize = indents[cursor].0;
    let mut chunks: Vec<Chunk> = Vec::new();
    chunks.push(Chunk::new(ChunkValue::Source(clone_string(&indents[cursor].1))));
    let mut cur: usize = cursor + 1;
    let ghost mut done: Seq<GChunk> = Seq::empty();
    proof {
        assert(rows[cursor as int] == (
            indents@[cursor as int].0 as int,
            indents@[cursor as int].1@,
        ));
        assert(chunks@.len() == 1);
        assert(chunks@.drop_first() =~= Seq::<Chunk>::empty());
        assert(chunks_view(chunks@.drop_first()) == Seq::<GChunk>::empty());
        assert(chunk_view(chunks@[0]) == GChunk::Source(rows[cursor as int].1));
        assert(chunks_view(chunks@) =~= seq![GChunk::Source(rows[cursor as int].1)] + done);
        assert(item_extend(done, build_items(rows, base as int, cursor + 1)) == build_items(
            rows,
            base as int,
            cursor + 1,
        )) by {
            assert(done + build_items(rows, base as int, cursor + 1).0 =~= build_items(
                rows,
                base as int,
                cursor + 1,
            ).0);
        }
    }
    loop
        invariant
            rows == rows_view(*indents),
            n == indents@.len(),
            rows.len() == n,
            0 <= cursor < n,
            base as int == rows[cursor as int].0,
            cursor + 1 <= cur <= n,
            chunks_view(chunks@) == seq![GChunk::Source(rows[cursor as int].1)] + done,
            item_extend(done, build_items(rows, base as int, cur as int)) == build_items(
                rows,
                base as int,
                cursor + 1,
            ),
        ensures
            rows == rows_view(*indents),
            cursor + 1 <= cur <= n,
            chunks_view(chunks@) == seq![GChunk::Source(rows[cursor as int].1)] + done,
            item_extend(done, build_items(rows, base as int, cur as int)) == build_items(
                rows,
                base as int,
                cursor + 1,
            ),
            build_items(rows, base as int, cur as int) == (Seq::<GChunk>::empty(), cur as int),
        decreases n - cur,
    {
        if cur >= n {
            proof {
                assert(build_items(rows, base as int, cur as int) == (
                    Seq::<GChunk>::empty(),
                    cur as int,
                ));
            }
            break ;
        }
        let ind = indents[cur].0;
        if ind == base {
            let line = clone_string(&indents[cur].1);
            proof {
                lemma_chunks_view_push(chunks@, Chunk { value: ChunkValue::Source(line) });
                let pr = build_items(rows, base as int, cur + 1);
                assert(build_items(rows, base as int, cur as int) == (
                    seq![GChunk::Source(rows[cur as int].1)] + pr.0,
                    pr.1,
                ));
                assert(done + (seq![GChunk::Source(rows[cur as int].1)] + pr.0) =~= (done + seq![
                    GChunk::Source(rows[cur as int].1),
                ]) + pr.0);
                assert((seq![GChunk::Source(rows[cursor as int].1)] + done) + seq![
                    GChunk::Source(rows[cur as int].1),
                ] =~= seq![GChunk::Source(rows[cursor as int].1)] + (done + seq![
                    GChunk::Source(rows[cur as int].1),
                ]));
            }
            chunks.push(Chunk::new(ChunkValue::Source(line)));
            proof {
                done = done + seq![GChunk::Source(rows[cur as int].1)];
            }
            cur = cur + 1;
        } else if ind < base {
            proof {
                assert(build_items(rows, base as int, cur as int) == (
                    Seq::<GChunk>::empty(),
                    cur as int,
                ));
            }
            break ;
        } else {
            let (child, cur2) = build_from(indents, cur);
            let ghost gchild = branch_view(child);
            proof {
                lemma_chunks_view_push(chunks@, Chunk { value: ChunkValue::Block(child) });
                assert(build_rows(rows, cur as int) == (gchild, cur2 as int));
                let pr = build_items(rows, base as int, cur2 as int);
                assert(build_items(rows, base as int, cur as int) == (
                    seq![GChunk::Block(gchild)] + pr.0,
                    pr.1,
                ));
                assert(done + (seq![GChunk::Block(gchild)] + pr.0) =~= (done + seq![
                    GChunk::Block(gchild),
                ]) + pr.0);
                assert((seq![GChunk::Source(rows[cursor as int].1)] + done) + seq![
                    GChunk::Block(gchild),
                ] =~= seq![GChunk::Source(rows[cursor as int].1)] + (done + seq![
                    GChunk::Block(gchild),
                ]));
            }
            chunks.push(Chunk::new(ChunkValue::Block(child)));
            proof {
                done = done + seq![GChunk::Block(gchild)];
            }
            cur = cur2;
        }
    }
    let b = Branch::new(chunks);
    proof {
        assert(build_rows(rows, cursor as int).0.chunks == seq![
            GChunk::Source(rows[cursor as int].1),
        ] + build_items(rows, base as int, cursor + 1).0);
        assert(build_items(rows, base as int, cursor + 1) == (done, cur as int));
    }
    (b, cur)
}

// ------------------------------------------------------------------
// The block lexer and the flattener
// ------------------------------------------------------------------
/// The tokens a chunk holds, over the whole subtree, in traversal order.
pub open spec fn gchunk_tokens(c: GChunk) -> Seq<SpecToken>
    decreases c,
{
    match c {
        GChunk::Source(_) => Seq::empty(),
        GChunk::Tokens(ts) => ts,
        GChunk::Block(b) => gchunks_tokens(b.chunks),
    }
}

pub open spec fn gchunks_tokens(cs: Seq<GChunk>) -> Seq<SpecToken>
    decreases cs,
{
    if cs.len() == 0 {
        Seq::empty()
    } else {
        gchunk_tokens(cs[0]) + gchunks_tokens(cs.drop_first())
    }
}

pub proof fn lemma_gchunks_tokens_concat(a: Seq<GChunk>, b: Seq<GChunk>)
    ensures
        gchunks_tokens(a + b) == gchunks_tokens(a) + gchunks_tokens(b),
    decreases a.len(),
{
    if a.len() == 0 {
        assert(a + b =~= b);
        assert(gchunks_tokens(a) + gchunks_tokens(b) =~= gchunks_tokens(b));
    } else {
        assert((a + b)[0] == a[0]);
        assert((a + b).drop_first() =~= a.drop_first() + b);
        lemma_gchunks_tokens_concat(a.drop_first(), b);
        assert(gchunk_tokens(a[0]) + (gchunks_tokens(a.drop_first()) + gchunks_tokens(b)) =~= (
        gchunk_tokens(a[0]) + gchunks_tokens(a.drop_first())) + gchunks_tokens(b));
    }
}

pub proof fn lemma_gchunks_tokens_singleton(g: GChunk)
    ensures
        gchunks_tokens(seq![g]) == gchunk_tokens(g),
{
    assert(seq![g][0] == g);
    assert(seq![g].drop_first() =~= Seq::<GChunk>::empty());
    assert(gchunks_tokens(Seq::<GChunk>::empty()) == Seq::<SpecToken>::empty());
    assert(gchunk_tokens(g) + Seq::<SpecToken>::empty() =~= gchunk_tokens(g));
}

/// What lexing a chunk yields: a source line becomes the token sequence the
/// standard chain reads from it, an already-lexed chunk stays, and a nested
/// block is lexed chunk by chunk. The first failure, in traversal order,
/// stops the walk.
pub open spec fn glex_chunk(c: GChunk) -> Result<GChunk, (LexErrorKind, int)>
    decreases c,
{
    match c {
        GChunk::Source(l) => match crate::lexer::std_lex_seq(l, 0) {
            Ok(ms) => Ok(GChunk::Tokens(ms)),
            Err(p) => Err(p),
        },
        GChunk::Tokens(ts) => Ok(GChunk::Tokens(ts)),
        GChunk::Block(gb) => match glex_chunks(gb.chunks) {
            Ok(cs) => Ok(GChunk::Block(GBranch { chunks: cs })),
            Err(p) => Err(p),
        },
    }
}

pub open spec fn glex_chunks(cs: Seq<GChunk>) -> Result<Seq<GChunk>, (LexErrorKind, int)>
    decreases cs,
{
    if cs.len() == 0 {
        Ok(Seq::empty())
    } else {
        match glex_chunk(cs[0]) {
            Ok(g) => match glex_chunks(cs.drop_first()) {
                Ok(rest) => Ok(seq![g] + rest),
                Err(p) => Err(p),
            },
            Err(p) => Err(p),
        }
    }
}

/// Copies a token vector.
pub fn clone_tokens(ts: &Vec<Token>) -> (r: Vec<Token>)
    ensures
        r@ == ts@,
{
    let mut out: Vec<Token> = Vec::new();
    let mut j: usize = 0;
    proof {
        assert(out@ =~= ts@.take(0));
    }
    while j < ts.len()
        invariant
            0 <= j <= ts@.len(),
            out@ == ts@.take(j as int),
        decreases ts@.len() - j,
    {
        proof {
            assert(ts@.take(j as int).push(ts@[j as int]) =~= ts@.take(j + 1));
        }
        out.push(crate::token::clone_token(&ts[j]));
        j = j + 1;
    }
    proof {
        assert(ts@.take(ts@.len() as int) =~= ts@);
    }
    out
}

/// Walks the tree in order and concatenates all token sequences into one
/// ordered list, discarding the nesting structure entirely.
pub fn flatten_branch(b: &Branch) -> (r: Vec<Token>)
    ensures
        r@.map_values(|t: Token| token_model(t)) == gchunks_tokens(chunks_view(b.value@)),
    decreases *b,
{
    let mut out: Vec<Token> = Vec::new();
    let mut i: usize = 0;
    proof {
        assert(out@.map_values(|t: Token| token_model(t)) =~= Seq::<SpecToken>::empty());
        assert(b.value@.take(0) =~= Seq::<Chunk>::empty());
        assert(gchunks_tokens(chunks_view(b.value@.take(0))) == Seq::<SpecToken>::empty());
    }
    while i < b.value.len()
        invariant
            0 <= i <= b.value@.len(),
            out@.map_values(|t: Token| token_model(t)) == gchunks_tokens(
                chunks_view(b.value@.take(i as int)),
            ),
        decreases b.value@.len() - i,
    {
        let ghost prefix = out@.map_values(|t: Token| token_model(t));
        let c: &Chunk = &b.value[i];
        proof {
            assert(b.value@.take(i + 1) =~= b.value@.take(i as int).push(b.value@[i as int]));
            lemma_chunks_view_push(b.value@.take(i as int), b.value@[i as int]);
            lemma_gchunks_tokens_concat(
                chunks_view(b.value@.take(i as int)),
                seq![chunk_view(b.value@[i as int])],
            );
            lemma_gchunks_tokens_singleton(chunk_view(b.value@[i as int]));
        }
        match &c.value {
            ChunkValue::Source(_) => {
                proof {
                    assert(gchunk_tokens(chunk_view(b.value@[i as int])) == Seq::<
                        SpecToken,
                    >::empty());
                    assert(prefix + Seq::<SpecToken>::empty() =~= prefix);
                }
            },
            ChunkValue::Token(ts) => {
                let ghost models = ts@.map_values(|t: Token| token_model(t));
                let mut j: usize = 0;
                while j < ts.len()
                    invariant
                        0 <= j <= ts@.len(),
                        models == ts@.map_values(|t: Token| token_model(t)),
                        out@.map_values(|t: Token| token_model(t)) == prefix + models.take(
                            j as int,
                        ),
                    decreases ts@.len() - j,
                {
                    let ghost before = out@.map_values(|t: Token| token_model(t));
                    out.push(crate::token::clone_token(&ts[j]));
                    proof {
                        assert(out@.drop_last() =~= out@.subrange(0, out@.len() - 1));
                        assert(out@.map_values(|t: Token| token_model(t)) =~= before.push(
                            token_model(ts@[j as int]),
                        ));
                        assert(models.take(j + 1) =~= models.take(j as int).push(
                            models[j as int],
                        ));
                        assert((prefix + models.take(j as int)).push(models[j as int]) =~= prefix
                            + models.take(j + 1));
                    }
                    j = j + 1;
                }
                proof {
                    assert(models.take(ts@.len() as int) =~= models);
                    assert(gchunk_tokens(chunk_view(b.value@[i as int])) == models);
                }
            },
            ChunkValue::Block(br) => {
                proof {
                    assert(decreases_to!(*b => b.value));
                    assert(decreases_to!(b.value => b.value@));
                    assert(decreases_to!(b.value@ => b.value@[i as int]));
                    assert(decreases_to!(b.value@[i as int] => b.value@[i as int].value));
                    assert(decreases_to!(b.value@[i as int].value => *br));
                }
                let mut sub = flatten_branch(br);
                let ghost sub_models = sub@.map_values(|t: Token| token_model(t));
                out.append(&mut sub);
                proof {
                    assert(out@.map_values(|t: Token| token_model(t)) =~= prefix + sub_models);
                    assert(gchunk_tokens(chunk_view(b.value@[i as int])) == gchunks_tokens(
                        chunks_view(br.value@),
                    ));
                }
            },
        }
        i = i + 1;
    }
    proof {
        assert(b.value@.take(b.value@.len() as int) =~= b.value@);
    }
    out
}

/// Lexes every source chunk of the tree with the standard chain, replacing
/// it by its token sequence; nested blocks are lexed recursively. The first
/// failure, in traversal order, stops the pass; its position is an offset
/// within the failing line.
pub fn lex_branch(b: &Branch) -> (r: Result<Branch, LexError>)
    ensures
        match r {
            Ok(out) => glex_chunks(chunks_view(b.value@)) == Ok::<_, (LexErrorKind, int)>(
                chunks_view(out.value@),
            ),
            Err(e) => {
                &&& glex_chunks(chunks_view(b.value@)) == Err::<Seq<GChunk>, _>(
                    (e.kind, e.position.start as int),
                )
                &&& e.position.end == e.position.start
            },
        },
    decreases *b,
{
    let mut chunks: Vec<Chunk> = Vec::new();
    let mut i: usize = 0;
    proof {
        assert(chunks_view(chunks@) =~= Seq::<GChunk>::empty());
        assert(b.value@.skip(0) =~= b.value@);
    }
    while i < b.value.len()
        invariant
            0 <= i <= b.value@.len(),
            match glex_chunks(chunks_view(b.value@.skip(i as int))) {
                Ok(rest) => glex_chunks(chunks_view(b.value@)) == Ok::<_, (LexErrorKind, int)>(
                    chunks_view(chunks@) + rest,
                ),
                Err(p) => glex_chunks(chunks_view(b.value@)) == Err::<Seq<GChunk>, _>(p),
            },
        decreases b.value@.len() - i,
    {
        let ghost done = chunks_view(chunks@);
        let ghost gi = chunk_view(b.value@[i as int]);
        let c: &Chunk = &b.value[i];
        proof {
            assert(b.value@.skip(i as int)[0] == b.value@[i as int]);
            assert(b.value@.skip(i as int).drop_first() =~= b.value@.skip(i + 1));
            assert(chunks_view(b.value@.skip(i as int)) == seq![gi] + chunks_view(
                b.value@.skip(i + 1),
            ));
            assert((seq![gi] + chunks_view(b.value@.skip(i + 1)))[0] == gi);
            assert((seq![gi] + chunks_view(b.value@.skip(i + 1))).drop_first() =~= chunks_view(
                b.value@.skip(i + 1),
            ));
        }
        match &c.value {
            ChunkValue::Source(line) => {
                match crate::lexer::lex_line(line.as_str()) {
                    Ok(ts) => {
                        proof {
                            assert(glex_chunk(gi) == Ok::<_, (LexErrorKind, int)>(
                                GChunk::Tokens(ts@.map_values(|t: Token| token_model(t))),
                            ));
                            lemma_chunks_view_push(
                                chunks@,
                                Chunk { value: ChunkValue::Token(ts) },
                            );
                        }
                        chunks.push(Chunk::new(ChunkValue::Token(ts)));
                    },
                    Err(e) => {
                        proof {
                            assert(glex_chunk(gi) == Err::<GChunk, _>(
                                (e.kind, e.position.start as int),
                            ));
                            assert(glex_chunks(chunks_view(b.value@.skip(i as int))) == Err::<
                                Seq<GChunk>,
                                _,
                            >((e.kind, e.position.start as int)));
                        }
                        return Err(e);
                    },
                }
            },
            ChunkValue::Token(ts) => {
                let copy = clone_tokens(ts);
                proof {
                    assert(glex_chunk(gi) == Ok::<_, (LexErrorKind, int)>(
                        GChunk::Tokens(ts@.map_values(|t: Token| token_model(t))),
                    ));
                    lemma_chunks_view_push(chunks@, Chunk { value: ChunkValue::Token(copy) });
                }
                chunks.push(Chunk::new(ChunkValue::Token(copy)));
            },
            ChunkValue::Block(br) => {
                proof {
                    assert(decreases_to!(*b => b.value));
                    assert(decreases_to!(b.value => b.value@));
                    assert(decreases_to!(b.value@ => b.value@[i as int]));
                    assert(decreases_to!(b.value@[i as int] => b.value@[i as int].value));
                    assert(decreases_to!(b.value@[i as int].value => *br));
                }
                match lex_branch(br) {
                    Ok(outb) => {
                        proof {
                            assert(glex_chunk(gi) == Ok::<_, (LexErrorKind, int)>(
                                GChunk::Block(GBranch { chunks: chunks_view(outb.value@) }),
                            ));
                            lemma_chunks_view_push(
                                chunks@,
                                Chunk { value: ChunkValue::Block(outb) },
                            );
                        }
                        chunks.push(Chunk::new(ChunkValue::Block(outb)));
                    },
                    Err(e) => {
                        proof {
                            assert(glex_chunk(gi) == Err::<GChunk, _>(
                                (e.kind, e.position.start as int),
                            ));
                            assert(glex_chunks(chunks_view(b.value@.skip(i as int))) == Err::<
                                Seq<GChunk>,
                                _,
                            >((e.kind, e.position.start as int)));
                        }
                        return Err(e);
                    },
                }
            },
        }
        proof {
            let gp = chunk_view(chunks@.last());
            assert(chunks_view(chunks@) == done + seq![gp]);
            assert(glex_chunk(gi) == Ok::<_, (LexErrorKind, int)>(gp));
            match glex_chunks(chunks_view(b.value@.skip(i + 1))) {
                Ok(rest) => {
                    assert(glex_chunks(chunks_view(b.value@.skip(i as int)))
                        == Ok::<_, (LexErrorKind, int)>(seq![gp] + rest));
                    assert(done + (seq![gp] + rest) =~= (done + seq![gp]) + rest);
                },
                Err(p) => {
                    assert(glex_chunks(chunks_view(b.value@.skip(i as int))) == Err::<
                        Seq<GChunk>,
                        _,
                    >(p));
                },
            }
        }
        i = i + 1;
    }
    proof {
        assert(b.value@.skip(b.value@.len() as int).len() == 0);
        assert(chunks_view(chunks@) + Seq::<GChunk>::empty() =~= chunks_view(chunks@));
    }
    Ok(Branch::new(chunks))
}

// ------------------------------------------------------------------
// The pipeline, end to end
// ------------------------------------------------------------------
/// Whether a chunk still holds raw source only, as a freshly built tree
/// does.
pub open spec fn gchunk_all_source(c: GChunk) -> bool
    decreases c,
{
    match c {
        GChunk::Source(_) => true,
        GChunk::Tokens(_) => false,
        GChunk::Block(b) => gchunks_all_source(b.chunks),
    }
}

pub open spec fn gchunks_all_source(cs: Seq<GChunk>) -> bool
    decreases cs,
{
    if cs.len() == 0 {
        true
    } else {
        gchunk_all_source(cs[0]) && gchunks_all_source(cs.drop_first())
    }
}

/// A freshly built tree holds raw source only.
pub proof fn lemma_build_items_all_source(rows: Seq<(int, Seq<char>)>, base: int, cur: int)
    requires
        0 <= cur <= rows.len(),
    ensures
        gchunks_all_source(build_items(rows, base, cur).0),
    decreases rows.len() - cur, 1int,
{
    if !(0 <= cur < rows.len()) {
        assert(gchunks_all_source(Seq::<GChunk>::empty()));
    } else if rows[cur].0 == base {
        lemma_build_items_all_source(rows, base, cur + 1);
        let pr = build_items(rows, base, cur + 1);
        let cons = seq![GChunk::Source(rows[cur].1)] + pr.0;
        assert(cons[0] == GChunk::Source(rows[cur].1));
        assert(cons.drop_first() =~= pr.0);
        assert(gchunk_all_source(cons[0]));
        assert(gchunks_all_source(cons));
    } else if rows[cur].0 < base {
        assert(gchunks_all_source(Seq::<GChunk>::empty()));
    } else {
        let child = build_rows(rows, cur);
        lemma_build_rows_bounds(rows, cur);
        lemma_build_rows_all_source(rows, cur);
        lemma_build_bounds(rows, base, child.1);
        lemma_build_items_all_source(rows, base, child.1);
        let pr = build_items(rows, base, child.1);
        let cons = seq![GChunk::Block(child.0)] + pr.0;
        assert(cons[0] == GChunk::Block(child.0));
        assert(cons.drop_first() =~= pr.0);
        assert(gchunk_all_source(cons[0]));
        assert(gchunks_all_source(cons));
    }
}

pub proof fn lemma_build_rows_all_source(rows: Seq<(int, Seq<char>)>, c: int)
    requires
        0 <= c < rows.len(),
    ensures
        gchunks_all_source(build_rows(rows, c).0.chunks),
    decreases rows.len() - c, 0int,
{
    lemma_build_bounds(rows, rows[c].0, c + 1);
    lemma_build_items_all_source(rows, rows[c].0, c + 1);
    let pr = build_items(rows, rows[c].0, c + 1);
    let cons = seq![GChunk::Source(rows[c].1)] + pr.0;
    assert(cons[0] == GChunk::Source(rows[c].1));
    assert(cons.drop_first() =~= pr.0);
    assert(gchunk_all_source(cons[0]));
    assert(gchunks_all_source(cons));
}

pub proof fn lemma_build_tree_all_source(rows: Seq<(int, Seq<char>)>, c: int)
    ensures
        gchunks_all_source(build_tree(rows, c).0.chunks),
{
    if 0 <= c < rows.len() {
        lemma_build_rows_all_source(rows, c);
    }
}

/// The tokens of a sequence of lines, each lexed to exhaustion with the
/// standard chain.
pub open spec fn lines_tokens(ls: Seq<Seq<char>>) -> Seq<SpecToken>
    decreases ls.len(),
{
    if ls.len() == 0 {
        Seq::empty()
    } else {
        (match crate::lexer::std_lex_seq(ls[0], 0) {
            Ok(ms) => ms,
            Err(_) => Seq::empty(),
        }) + lines_tokens(ls.drop_first())
    }
}

pub proof fn lemma_lines_tokens_concat(a: Seq<Seq<char>>, b: Seq<Seq<char>>)
    ensures
        lines_tokens(a + b) == lines_tokens(a) + lines_tokens(b),
    decreases a.len(),
{
    if a.len() == 0 {
        assert(a + b =~= b);
        assert(lines_tokens(a) + lines_tokens(b) =~= lines_tokens(b));
    } else {
        assert((a + b)[0] == a[0]);
        assert((a + b).drop_first() =~= a.drop_first() + b);
        lemma_lines_tokens_concat(a.drop_first(), b);
        let h = (match crate::lexer::std_lex_seq(a[0], 0) {
            Ok(ms) => ms,
            Err(_) => Seq::<SpecToken>::empty(),
        });
        assert(h + (lines_tokens(a.drop_first()) + lines_tokens(b)) =~= (h + lines_tokens(
            a.drop_first(),
        )) + lines_tokens(b));
    }
}

/// Lexing a raw chunk and reading its tokens yields exactly the token
/// streams of the source lines it holds, in order.
pub proof fn lemma_glex_chunk_tokens(c: GChunk)
    requires
        gchunk_all_source(c),
    ensures
        match glex_chunk(c) {
            Ok(g) => gchunk_tokens(g) == lines_tokens(gchunk_sources(c)),
            Err(_) => true,
        },
    decreases c,
{
    match c {
        GChunk::Source(l) => {
            match crate::lexer::std_lex_seq(l, 0) {
                Ok(ms) => {
                    assert(seq![l].drop_first() =~= Seq::<Seq<char>>::empty());
                    assert(lines_tokens(Seq::<Seq<char>>::empty()) == Seq::<SpecToken>::empty());
                    assert(lines_tokens(seq![l]) =~= ms);
                },
                Err(_) => {},
            }
        },
        GChunk::Tokens(_) => {},
        GChunk::Block(b) => {
            lemma_glex_chunks_tokens(b.chunks);
        },
    }
}

/// The whole block pipeline in one statement: lexing a freshly built tree
/// and flattening the result yields exactly the concatenation, in order, of
/// the token streams of the surviving lines the tree covers.
pub proof fn lemma_glex_chunks_tokens(cs: Seq<GChunk>)
    requires
        gchunks_all_source(cs),
    ensures
        match glex_chunks(cs) {
            Ok(cs2) => gchunks_tokens(cs2) == lines_tokens(gchunks_sources(cs)),
            Err(_) => true,
        },
    decreases cs,
{
    if cs.len() > 0 {
        lemma_glex_chunk_tokens(cs[0]);
        lemma_glex_chunks_tokens(cs.drop_first());
        match glex_chunk(cs[0]) {
            Ok(g) => {
                match glex_chunks(cs.drop_first()) {
                    Ok(rest) => {
                        lemma_gchunks_tokens_concat(seq![g], rest);
                        lemma_gchunks_tokens_singleton(g);
                        lemma_lines_tokens_concat(
                            gchunk_sources(cs[0]),
                            gchunks_sources(cs.drop_first()),
                        );
                    },
                    Err(_) => {},
                }
            },
            Err(_) => {},
        }
    }
}

// ------------------------------------------------------------------
// Lines, indentation and trimming
// ------------------------------------------------------------------
/// Whether a line is blank: whitespace only.
pub open spec fn is_blank(l: Seq<char>) -> bool {
    run_end(l, 0, CharClass::Space) == l.len()
}

/// A line's indentation: its count of leading space characters.
pub open spec fn indent_of(l: Seq<char>) -> int {
    run_end(l, 0, CharClass::Indent)
}

/// Whether a line's leading whitespace is made of spaces alone: a tab in
/// the indentation cannot be compared consistently and is rejected.
pub open spec fn clean_indent(l: Seq<char>) -> bool {
    run_end(l, 0, CharClass::Indent) == run_end(l, 0, CharClass::Space)
}

/// One past the last non-whitespace character of `l`, or 0 where there is
/// none.
pub open spec fn trim_end_idx(l: Seq<char>) -> int
    decreases l.len(),
{
    if l.len() == 0 {
        0
    } else if is_space(l.last()) {
        trim_end_idx(l.drop_last())
    } else {
        l.len() as int
    }
}

/// The line with its leading and trailing whitespace removed.
pub open spec fn trim_of(l: Seq<char>) -> Seq<char> {
    if trim_end_idx(l) <= run_end(l, 0, CharClass::Space) {
        Seq::empty()
    } else {
        l.subrange(run_end(l, 0, CharClass::Space), trim_end_idx(l))
    }
}

/// What collecting indents from position `p` of the source yields, with `k`
/// lines already behind: each surviving (non-blank) line's indentation and
/// trimmed text in order, or the index of the first line whose indentation
/// mixes tabs and spaces.
pub open spec fn collect_from(s: Seq<char>, p: int, k: int) -> Result<Seq<(int, Seq<char>)>, int>
    decreases s.len() - p,
    via collect_from_decreases
{
    let e = run_end(s, p, CharClass::NonNewline);
    let l = s.subrange(p, e);
    if is_blank(l) {
        if e >= s.len() {
            Ok(Seq::empty())
        } else {
            collect_from(s, e + 1, k + 1)
        }
    } else if !clean_indent(l) {
        Err(k)
    } else {
        let row = (indent_of(l), trim_of(l));
        if e >= s.len() {
            Ok(seq![row])
        } else {
            match collect_from(s, e + 1, k + 1) {
                Ok(rest) => Ok(seq![row] + rest),
                err => err,
            }
        }
    }
}

#[via_fn]
proof fn collect_from_decreases(s: Seq<char>, p: int, k: int) {
    if 0 <= p <= s.len() {
        lemma_run_end_bounds(s, p, CharClass::NonNewline);
    }
}

/// Collected rows, seen from midway through the source: the rows already
/// collected are prepended to whatever the rest of the walk yields.
pub open spec fn collect_extend(
    prefix: Seq<(int, Seq<char>)>,
    r: Result<Seq<(int, Seq<char>)>, int>,
) -> Result<Seq<(int, Seq<char>)>, int> {
    match r {
        Ok(rest) => Ok(prefix + rest),
        err => err,
    }
}

/// The last non-whitespace character of a line keeps the trimmed end past
/// every non-whitespace position.
pub proof fn lemma_trim_end_past(l: Seq<char>, j: int)
    requires
        0 <= j < l.len(),
        !is_space(l[j]),
    ensures
        trim_end_idx(l) > j,
    decreases l.len(),
{
    if l.len() > 0 && is_space(l.last()) {
        lemma_trim_end_past(l.drop_last(), j);
    }
}

/// The block tree builder: the source text and the line cursor shared by
/// the recursive descent.
#[derive(Debug)]
pub struct BlockTree {
    pub source: String,
    pub current_line: usize,
}

impl BlockTree {
    pub fn new(source: &str, current_line: usize) -> (r: BlockTree)
        ensures
            r.source@ == source@,
            r.current_line == current_line,
    {
        BlockTree { source: String::from_str(source), current_line }
    }

    /// A line's indentation: its count of leading space characters.
    pub fn indent(&mut self, line: &str) -> (r: usize)
        ensures
            *final(self) == *old(self),
            r as int == indent_of(line@),
    {
        let chars = chars_of(line);
        let ghost l = line@;
        let n = chars.len();
        let mut pos: usize = 0;
        while pos < n && chars[pos] == ' '
            invariant
                chars@ == l,
                n == l.len(),
                0 <= pos <= n,
                run_end(l, 0, CharClass::Indent) == run_end(l, pos as int, CharClass::Indent),
            decreases n - pos,
        {
            proof {
                assert(run_end(l, pos as int, CharClass::Indent) == run_end(
                    l,
                    pos + 1,
                    CharClass::Indent,
                ));
            }
            pos = pos + 1;
        }
        proof {
            assert(run_end(l, pos as int, CharClass::Indent) == pos as int);
        }
        pos
    }

    /// Splits the source into non-blank lines, recording each one's
    /// indentation and trimmed text; a line whose indentation mixes tabs
    /// and spaces is a malformed-indentation failure carrying its line
    /// index.
    #[verifier::rlimit(60)]
    pub fn collect_indents(&mut self) -> (r: Result<Vec<(usize, String)>, LexError>)
        ensures
            *final(self) == *old(self),
            match r {
                Ok(v) => collect_from(old(self).source@, 0, 0) == Ok::<_, int>(rows_view(v)),
                Err(e) => {
                    &&& e.kind == LexErrorKind::MalformedIndentation
                    &&& collect_from(old(self).source@, 0, 0) == Err::<Seq<(int, Seq<char>)>, int>(
                        e.position.start as int,
                    )
                    &&& e.position.end == e.position.start
                },
            },
    {
        let sv: Vec<char> = chars_of(self.source.as_str());
        let ghost s = self.source@;
        let n = sv.len();
        let mut out: Vec<(usize, String)> = Vec::new();
        let mut p: usize = 0;
        let mut k: usize = 0;
        proof {
            assert(rows_view(out) =~= Seq::<(int, Seq<char>)>::empty());
        }
        loop
            invariant_except_break
                collect_from(s, 0, 0) == collect_extend(rows_view(out), collect_from(s, p as int, k as int)),
            invariant
                sv@ == s,
                s == old(self).source@,
                *self == *old(self),
                n == s.len(),
                0 <= p <= n,
                k <= p,
            ensures
                *self == *old(self),
                collect_from(s, 0, 0) == Ok::<_, int>(rows_view(out)),
            decreases n - p,
        {
            let ghost p0 = p as int;
            // scan to the end of the physical line
            let mut e: usize = p;
            while e < n && sv[e] != '\n'
                invariant
                    sv@ == s,
                    n == s.len(),
                    0 <= p <= e <= n,
                    run_end(s, p as int, CharClass::NonNewline) == run_end(
                        s,
                        e as int,
                        CharClass::NonNewline,
                    ),
                decreases n - e,
            {
                proof {
                    assert(run_end(s, e as int, CharClass::NonNewline) == run_end(
                        s,
                        e + 1,
                        CharClass::NonNewline,
                    ));
                }
                e = e + 1;
            }
            proof {
                assert(run_end(s, e as int, CharClass::NonNewline) == e as int);
            }
            // extract the line
            let mut lv: Vec<char> = Vec::new();
            let mut j: usize = p;
            proof {
                assert(lv@ =~= s.subrange(p0, p0));
            }
            while j < e
                invariant
                    sv@ == s,
                    n == s.len(),
                    0 <= p <= j <= e <= n,
                    p0 == p as int,
                    lv@ == s.subrange(p0, j as int),
                decreases e - j,
            {
                proof {
                    assert(s.subrange(p0, j as int).push(s[j as int]) =~= s.subrange(p0, j + 1));
                }
                lv.push(sv[j]);
                j = j + 1;
            }
            let ghost l = s.subrange(p0, e as int);
            let ln = lv.len();
            // leading whitespace and leading spaces
            let mut a_sp: usize = 0;
            while a_sp < ln && space(lv[a_sp])
                invariant
                    lv@ == l,
                    ln == l.len(),
                    0 <= a_sp <= ln,
                    run_end(l, 0, CharClass::Space) == run_end(l, a_sp as int, CharClass::Space),
                decreases ln - a_sp,
            {
                proof {
                    assert(run_end(l, a_sp as int, CharClass::Space) == run_end(
                        l,
                        a_sp + 1,
                        CharClass::Space,
                    ));
                }
                a_sp = a_sp + 1;
            }
            proof {
                assert(run_end(l, a_sp as int, CharClass::Space) == a_sp as int);
            }
            if a_sp < ln {
                // the line survives: its indentation must be spaces alone
                let mut a_in: usize = 0;
                while a_in < ln && lv[a_in] == ' '
                    invariant
                        lv@ == l,
                        ln == l.len(),
                        0 <= a_in <= ln,
                        run_end(l, 0, CharClass::Indent) == run_end(
                            l,
                            a_in as int,
                            CharClass::Indent,
                        ),
                    decreases ln - a_in,
                {
                    proof {
                        assert(run_end(l, a_in as int, CharClass::Indent) == run_end(
                            l,
                            a_in + 1,
                            CharClass::Indent,
                        ));
                    }
                    a_in = a_in + 1;
                }
                proof {
                    assert(run_end(l, a_in as int, CharClass::Indent) == a_in as int);
                }
                if a_in != a_sp {
                    return Err(LexError::new(
                        LexErrorKind::MalformedIndentation,
                        TokenPosition::new(k, k),
                    ));
                }
                // trim the end
                let mut b: usize = ln;
                proof {
                    assert(l.take(ln as int) =~= l);
                }
                while b > 0 && space(lv[b - 1])
                    invariant
                        lv@ == l,
                        ln == l.len(),
                        0 <= b <= ln,
                        trim_end_idx(l) == trim_end_idx(l.take(b as int)),
                    decreases b,
                {
                    proof {
                        assert(l.take(b as int).last() == l[b - 1]);
                        assert(l.take(b as int).drop_last() =~= l.take(b - 1));
                    }
                    b = b - 1;
                }
                proof {
                    if b > 0 {
                        assert(l.take(b as int).last() == l[b - 1]);
                        assert(trim_end_idx(l.take(b as int)) == b as int);
                    } else {
                        assert(l.take(0) =~= Seq::<char>::empty());
                        assert(trim_end_idx(l.take(0)) == 0);
                    }
                    lemma_trim_end_past(l, a_sp as int);
                }
                // build the trimmed text
                let mut tr = String::new();
                let mut q: usize = a_sp;
                proof {
                    assert(tr@ =~= l.subrange(a_sp as int, a_sp as int));
                }
                while q < b
                    invariant
                        lv@ == l,
                        ln == l.len(),
                        0 <= a_sp <= q <= b <= ln,
                        tr@ == l.subrange(a_sp as int, q as int),
                    decreases b - q,
                {
                    proof {
                        assert(l.subrange(a_sp as int, q as int).push(l[q as int]) =~= l.subrange(
                            a_sp as int,
                            q + 1,
                        ));
                    }
                    tr.push(lv[q]);
                    q = q + 1;
                }
                let ghost rows_before = rows_view(out);
                let ghost row: (int, Seq<char>) = (indent_of(l), trim_of(l));
                proof {
                    assert(tr@ == trim_of(l));
                    assert(!is_blank(l));
                    assert(clean_indent(l));
                    assert(row == (a_in as int, tr@));
                }
                out.push((a_in, tr));
                proof {
                    assert(rows_view(out) =~= rows_before + seq![row]);
                    if e < n {
                        match collect_from(s, e + 1, k + 1) {
                            Ok(rest) => {
                                assert(collect_from(s, p0, k as int) == Ok::<_, int>(
                                    seq![row] + rest,
                                ));
                                assert(rows_before + (seq![row] + rest) =~= (rows_before + seq![
                                    row,
                                ]) + rest);
                            },
                            Err(kk) => {
                                assert(collect_from(s, p0, k as int) == Err::<
                                    Seq<(int, Seq<char>)>,
                                    int,
                                >(kk));
                            },
                        }
                    } else {
                        assert(collect_from(s, p0, k as int) == Ok::<_, int>(seq![row]));
                    }
                }
            } else {
                proof {
                    assert(is_blank(l));
                    if e < n {
                        assert(collect_from(s, p0, k as int) == collect_from(s, e + 1, k + 1));
                    }
                }
            }
            if e >= n {
                proof {
                    if a_sp >= ln {
                        assert(collect_from(s, p0, k as int) == Ok::<_, int>(
                            Seq::<(int, Seq<char>)>::empty(),
                        ));
                        assert(rows_view(out) + Seq::<(int, Seq<char>)>::empty() =~= rows_view(
                            out,
                        ));
                    }
                }
                break ;
            }
            p = e + 1;
            k = k + 1;
        }
        Ok(out)
    }

    /// Builds the block tree over the collected rows, starting at the
    /// current line cursor; afterwards the cursor rests on the first row
    /// the tree does not cover (normally past the last row).
    pub fn tree(&mut self, indents: &Vec<(usize, String)>) -> (r: Branch)
        ensures
            final(self).source == old(self).source,
            (branch_view(r), final(self).current_line as int) == build_tree(
                rows_view(*indents),
                old(self).current_line as int,
            ),
    {
        let (branch, cur) = build_from(indents, self.current_line);
        self.current_line = cur;
        branch
    }
}

} // verus!
