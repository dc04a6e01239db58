//! A left-to-right bracket/block matcher.
//!
//! Opening and closing token positions are fed one at a time to a [`Blocks`]
//! balancer, which pairs each closing token with the most recently opened,
//! still-open block (strict last-open-first-close nesting).  Consuming the
//! balancer either yields the blocks with every pairing resolved, or reports
//! which side of the stream was unbalanced.

use vstd::prelude::*;

verus! {

/// The closing half of a block that may still be awaiting its token:
/// `None` means "not yet matched".
pub type Unbalanced = Option<usize>;

/// The closing half of a block that is known to be matched.
pub type Balanced = usize;

/// Marker restricting which types may describe a block's closing state.
pub trait Sealed {}

impl Sealed for Unbalanced {}

impl Sealed for Balanced {}

/// A closing-state type of a block: either [`Unbalanced`] or [`Balanced`].
pub trait BlockState: Sealed + Copy {}

impl BlockState for Unbalanced {}

impl BlockState for Balanced {}

/// A left-to-right block: the position of its opening token, together with
/// the position of its closing token in the state described by `T`.
#[derive(Clone, Debug)]
pub struct Block<T: BlockState> {
    opening: usize,
    closing: T,
}

impl<T: BlockState> Block<T> {
    /// The opening token's position, as seen by specifications.
    pub closed spec fn spec_opening(&self) -> usize {
        self.opening
    }

    /// The closing field, as seen by specifications.
    pub closed spec fn spec_closing(&self) -> T {
        self.closing
    }

    /// Construct a block in any state directly, bypassing the balancer.
    /// The caller alone vouches that the fields describe a real pairing.
    pub fn new_unchecked(opening: usize, closing: T) -> (r: Self)
        ensures
            r.opening() == opening,
            r.closing() == closing,
    {
        Block { opening, closing }
    }

    /// Retrieve the position of the opening token.
    #[verifier::when_used_as_spec(spec_opening)]
    pub fn opening(&self) -> (r: usize)
        ensures
            r == self.spec_opening(),
    {
        self.opening
    }

    /// Retrieve the closing field: an optional position if unbalanced,
    /// a plain position otherwise.
    #[verifier::when_used_as_spec(spec_closing)]
    pub fn closing(&self) -> (r: T)
        ensures
            r == self.spec_closing(),
    {
        self.closing
    }
}

impl Block<Unbalanced> {
    /// Create a block opened at `idx`, with no closing token yet.
    pub fn open(idx: usize) -> (r: Self)
        ensures
            r == open_block(idx),
    {
        Block { opening: idx, closing: None }
    }
}

/// The block opened at `idx`, not yet matched.
pub closed spec fn open_block(idx: usize) -> Block<Unbalanced> {
    Block { opening: idx, closing: None }
}

/// `b` with its closing token placed at `idx`.
pub closed spec fn close_block(b: Block<Unbalanced>, idx: usize) -> Block<Unbalanced> {
    Block { opening: b.opening, closing: Some(idx) }
}

pub broadcast proof fn lemma_open_block(idx: usize)
    ensures
        (#[trigger] open_block(idx)).opening() == idx,
        open_block(idx).closing() is None,
{
}

pub broadcast proof fn lemma_close_block(b: Block<Unbalanced>, idx: usize)
    ensures
        (#[trigger] close_block(b, idx)).opening() == b.opening(),
        close_block(b, idx).closing() == Some(idx),
{
}

/// Every block in `s` has its closing token assigned: the stream seen so far
/// is balanced.
pub open spec fn all_closed(s: Seq<Block<Unbalanced>>) -> bool {
    forall|j: int| 0 <= j < s.len() ==> (#[trigger] s[j]).closing() is Some
}

/// The position in `s` of the most recently added block that is still open,
/// or `-1` when every block is closed.  This is the block a closing token
/// pairs with under strict last-open-first-close nesting.
pub open spec fn last_open(s: Seq<Block<Unbalanced>>) -> int
    decreases s.len(),
{
    if s.len() == 0 {
        -1
    } else if s.last().closing() is None {
        s.len() - 1
    } else {
        last_open(s.drop_last())
    }
}

/// `last_open` indeed picks an open block, and the rightmost one.
pub proof fn lemma_last_open_bounds(s: Seq<Block<Unbalanced>>)
    ensures
        -1 <= last_open(s) < s.len(),
        last_open(s) >= 0 ==> s[last_open(s)].closing() is None,
        forall|j: int| last_open(s) < j < s.len() ==> (#[trigger] s[j]).closing() is Some,
    decreases s.len(),
{
    if s.len() > 0 && !(s.last().closing() is None) {
        lemma_last_open_bounds(s.drop_last());
        assert forall|j: int| last_open(s) < j < s.len() implies (#[trigger] s[j]).closing()
            is Some by {
            if j == s.len() - 1 {
                assert(s[j] == s.last());
            } else {
                assert(s.drop_last()[j] == s[j]);
            }
        }
    }
}

/// When no block of `s` is open, `last_open` reports none.
pub proof fn lemma_last_open_none(s: Seq<Block<Unbalanced>>)
    requires
        all_closed(s),
    ensures
        last_open(s) == -1,
    decreases s.len(),
{
    if s.len() > 0 {
        assert(s.last() == s[s.len() - 1]);
        assert(forall|j: int| 0 <= j < s.len() - 1 ==> (#[trigger] s.drop_last()[j]) == s[j]);
        lemma_last_open_none(s.drop_last());
    }
}

/// An open block at position `j`, with everything to its right closed,
/// is exactly where `last_open` points.
pub proof fn lemma_last_open_at(s: Seq<Block<Unbalanced>>, j: int)
    requires
        0 <= j < s.len(),
        s[j].closing() is None,
        forall|k: int| j < k < s.len() ==> (#[trigger] s[k]).closing() is Some,
    ensures
        last_open(s) == j,
    decreases s.len(),
{
    if j == s.len() - 1 {
        assert(s.last() == s[j]);
    } else {
        assert(s.last() == s[s.len() - 1]);
        assert(forall|k: int| 0 <= k < s.len() - 1 ==> (#[trigger] s.drop_last()[k]) == s[k]);
        lemma_last_open_at(s.drop_last(), j);
    }
}

/// One event of the token stream, as the balancer's specification sees it:
/// an opening token or a closing token, each carrying its position.
pub enum Token {
    Left(usize),
    Right(usize),
}

/// The position carried by a token event.
pub open spec fn token_idx(t: Token) -> usize {
    match t {
        Token::Left(i) => i,
        Token::Right(i) => i,
    }
}

/// How one token event transforms the block sequence: an opening token
/// appends a fresh open block, a closing token closes the most recently
/// opened block that is still open, and fails when there is none.
pub open spec fn spec_step(s: Seq<Block<Unbalanced>>, t: Token) -> Option<
    Seq<Block<Unbalanced>>,
> {
    match t {
        Token::Left(idx) => Some(s.push(open_block(idx))),
        Token::Right(idx) => {
            let j = last_open(s);
            if j >= 0 {
                Some(s.update(j, close_block(s[j], idx)))
            } else {
                None
            }
        },
    }
}

/// The block sequence reached by feeding a whole token stream, starting
/// from nothing; `None` when some closing token found no open block.
pub open spec fn spec_run(ts: Seq<Token>) -> Option<Seq<Block<Unbalanced>>>
    decreases ts.len(),
{
    if ts.len() == 0 {
        Some(Seq::<Block<Unbalanced>>::empty())
    } else {
        match spec_run(ts.drop_last()) {
            Some(s) => spec_step(s, ts.last()),
            None => None,
        }
    }
}

/// Number of opening tokens in a stream.
pub open spec fn left_count(ts: Seq<Token>) -> int
    decreases ts.len(),
{
    if ts.len() == 0 {
        0
    } else {
        left_count(ts.drop_last()) + if ts.last() is Left {
            1int
        } else {
            0int
        }
    }
}

/// Number of closing tokens in a stream.
pub open spec fn right_count(ts: Seq<Token>) -> int
    decreases ts.len(),
{
    if ts.len() == 0 {
        0
    } else {
        right_count(ts.drop_last()) + if ts.last() is Right {
            1int
        } else {
            0int
        }
    }
}

/// No prefix of the stream has seen more closing than opening tokens.
pub open spec fn prefix_bounded(ts: Seq<Token>) -> bool {
    forall|k: int|
        0 <= k <= ts.len() ==> right_count(#[trigger] ts.take(k)) <= left_count(ts.take(k))
}

/// The stream is correctly nested: closings never outrun openings, and in
/// the end the two sides agree.
pub open spec fn well_nested(ts: Seq<Token>) -> bool {
    prefix_bounded(ts) && left_count(ts) == right_count(ts)
}

/// Every token position in the stream is strictly larger than the ones
/// before it, as when positions are assigned in increasing stream order.
pub open spec fn strictly_increasing(ts: Seq<Token>) -> bool {
    forall|a: int, b: int|
        0 <= a < b < ts.len() ==> token_idx(#[trigger] ts[a]) < token_idx(#[trigger] ts[b])
}

/// Number of blocks in `s` still awaiting their closing token.
pub open spec fn count_open(s: Seq<Block<Unbalanced>>) -> int
    decreases s.len(),
{
    if s.len() == 0 {
        0
    } else {
        count_open(s.drop_last()) + if s.last().closing() is None {
            1int
        } else {
            0int
        }
    }
}

proof fn lemma_count_open_push(s: Seq<Block<Unbalanced>>, b: Block<Unbalanced>)
    ensures
        count_open(s.push(b)) == count_open(s) + if b.closing() is None {
            1int
        } else {
            0int
        },
{
    assert(s.push(b).drop_last() =~= s);
    assert(s.push(b).last() == b);
}

proof fn lemma_count_open_update(s: Seq<Block<Unbalanced>>, j: int, b: Block<Unbalanced>)
    requires
        0 <= j < s.len(),
    ensures
        count_open(s.update(j, b)) == count_open(s) + (if b.closing() is None {
            1int
        } else {
            0int
        }) - (if s[j].closing() is None {
            1int
        } else {
            0int
        }),
    decreases s.len(),
{
    let t = s.update(j, b);
    if j == s.len() - 1 {
        assert(t.drop_last() =~= s.drop_last());
        assert(t.last() == b);
        assert(s.last() == s[j]);
    } else {
        assert(t.drop_last() =~= s.drop_last().update(j, b));
        assert(t.last() == s.last());
        assert(s.drop_last()[j] == s[j]);
        lemma_count_open_update(s.drop_last(), j, b);
    }
}

/// The open-block count is never negative, and vanishes exactly when every
/// block is closed.
pub proof fn lemma_count_open_all_closed(s: Seq<Block<Unbalanced>>)
    ensures
        count_open(s) >= 0,
        count_open(s) == 0 <==> all_closed(s),
    decreases s.len(),
{
    if s.len() > 0 {
        lemma_count_open_all_closed(s.drop_last());
        assert(s.last() == s[s.len() - 1]);
        assert(forall|j: int| 0 <= j < s.len() - 1 ==> (#[trigger] s.drop_last()[j]) == s[j]);
        if count_open(s) == 0 {
            assert forall|j: int| 0 <= j < s.len() implies (#[trigger] s[j]).closing()
                is Some by {
                if j < s.len() - 1 {
                    assert(s.drop_last()[j] == s[j]);
                }
            }
        }
        if all_closed(s) {
            assert(all_closed(s.drop_last()));
        }
    }
}

/// After any successfully fed stream, the number of blocks equals the
/// number of opening tokens, and the number of still-open blocks is the
/// lead of opening tokens over closing ones.
pub proof fn lemma_run_counts(ts: Seq<Token>)
    requires
        spec_run(ts) is Some,
    ensures
        ({
            let s = spec_run(ts).unwrap();
            s.len() == left_count(ts) && count_open(s) == left_count(ts) - right_count(ts)
        }),
    decreases ts.len(),
{
    if ts.len() > 0 {
        lemma_run_counts(ts.drop_last());
        let s0 = spec_run(ts.drop_last()).unwrap();
        match ts.last() {
            Token::Left(i) => {
                lemma_open_block(i);
                lemma_count_open_push(s0, open_block(i));
            },
            Token::Right(i) => {
                let j = last_open(s0);
                lemma_last_open_bounds(s0);
                lemma_close_block(s0[j], i);
                lemma_count_open_update(s0, j, close_block(s0[j], i));
            },
        }
    }
}

/// A stream whose closings never outrun its openings is fed without error.
pub proof fn lemma_prefix_bounded_runs(ts: Seq<Token>)
    requires
        prefix_bounded(ts),
    ensures
        spec_run(ts) is Some,
    decreases ts.len(),
{
    if ts.len() > 0 {
        let ts0 = ts.drop_last();
        assert forall|k: int| 0 <= k <= ts0.len() implies right_count(#[trigger] ts0.take(k))
            <= left_count(ts0.take(k)) by {
            assert(ts0.take(k) =~= ts.take(k));
        }
        lemma_prefix_bounded_runs(ts0);
        lemma_run_counts(ts0);
        let s0 = spec_run(ts0).unwrap();
        if ts.last() is Right {
            assert(ts.take(ts.len() as int) =~= ts);
            assert(right_count(ts) <= left_count(ts));
            assert(count_open(s0) >= 1);
            lemma_count_open_all_closed(s0);
            lemma_last_open_bounds(s0);
            if last_open(s0) == -1 {
                assert(all_closed(s0));
            }
        }
    }
}

/// A correctly nested stream is fed without error and leaves every block
/// closed: the balancer accepts it, with one block per opening token.
pub proof fn lemma_well_nested_balances(ts: Seq<Token>)
    requires
        well_nested(ts),
    ensures
        spec_run(ts) is Some,
        all_closed(spec_run(ts).unwrap()),
        spec_run(ts).unwrap().len() == left_count(ts),
{
    lemma_prefix_bounded_runs(ts);
    lemma_run_counts(ts);
    lemma_count_open_all_closed(spec_run(ts).unwrap());
}

/// A stream with more opening than closing tokens leaves some block open:
/// validation of the result fails, however the stream was interleaved.
pub proof fn lemma_extra_left_invalid(ts: Seq<Token>)
    requires
        spec_run(ts) is Some,
        left_count(ts) > right_count(ts),
    ensures
        !all_closed(spec_run(ts).unwrap()),
{
    lemma_run_counts(ts);
    lemma_count_open_all_closed(spec_run(ts).unwrap());
}

/// When token positions are assigned in increasing stream order, every
/// matched block's opening position is strictly below its closing one.
pub proof fn lemma_increasing_pairs(ts: Seq<Token>)
    requires
        spec_run(ts) is Some,
        strictly_increasing(ts),
    ensures
        ({
            let s = spec_run(ts).unwrap();
            forall|j: int|
                0 <= j < s.len() ==> ((#[trigger] s[j]).closing() matches Some(c)
                    ==> s[j].opening() < c)
        }),
{
    lemma_increasing_pairs_aux(ts);
}

/// Induction core for `lemma_increasing_pairs`: additionally tracks that
/// every opening position stored in the state was carried by some earlier
/// token event.
proof fn lemma_increasing_pairs_aux(ts: Seq<Token>)
    requires
        spec_run(ts) is Some,
        strictly_increasing(ts),
    ensures
        ({
            let s = spec_run(ts).unwrap();
            &&& forall|j: int|
                0 <= j < s.len() ==> exists|a: int|
                    0 <= a < ts.len() && token_idx(ts[a]) == (#[trigger] s[j]).opening()
            &&& forall|j: int|
                0 <= j < s.len() ==> ((#[trigger] s[j]).closing() matches Some(c)
                    ==> s[j].opening() < c)
        }),
    decreases ts.len(),
{
    if ts.len() > 0 {
        let ts0 = ts.drop_last();
        let s = spec_run(ts).unwrap();
        assert(forall|a: int| 0 <= a < ts0.len() ==> (#[trigger] ts0[a]) == ts[a]);
        lemma_increasing_pairs_aux(ts0);
        let s0 = spec_run(ts0).unwrap();
        assert(ts.last() == ts[ts.len() - 1]);
        match ts.last() {
            Token::Left(i) => {
                lemma_open_block(i);
                assert forall|j: int| 0 <= j < s.len() implies exists|a: int|
                    0 <= a < ts.len() && token_idx(ts[a]) == (#[trigger] s[j]).opening() by {
                    if j < s0.len() {
                        assert(s[j] == s0[j]);
                        let a = choose|a: int|
                            0 <= a < ts0.len() && token_idx(ts0[a]) == s0[j].opening();
                        assert(token_idx(ts[a]) == s[j].opening());
                    } else {
                        assert(s[j] == open_block(i));
                        assert(token_idx(ts[ts.len() - 1]) == s[j].opening());
                    }
                }
                assert(forall|j: int| 0 <= j < s0.len() ==> (#[trigger] s[j]) == s0[j]);
            },
            Token::Right(i) => {
                let j0 = last_open(s0);
                lemma_last_open_bounds(s0);
                lemma_close_block(s0[j0], i);
                assert forall|j: int| 0 <= j < s.len() implies exists|a: int|
                    0 <= a < ts.len() && token_idx(ts[a]) == (#[trigger] s[j]).opening() by {
                    assert(s[j].opening() == s0[j].opening());
                    let a = choose|a: int|
                        0 <= a < ts0.len() && token_idx(ts0[a]) == s0[j].opening();
                    assert(token_idx(ts[a]) == s[j].opening());
                }
                assert forall|j: int|
                    0 <= j < s.len() implies ((#[trigger] s[j]).closing() matches Some(c)
                    ==> s[j].opening() < c) by {
                    if j == j0 {
                        let a = choose|a: int|
                            0 <= a < ts0.len() && token_idx(ts0[a]) == s0[j0].opening();
                        assert(token_idx(ts[a]) < token_idx(ts[ts.len() - 1]));
                        assert(s[j0].closing() == Some(i));
                    } else {
                        assert(s[j] == s0[j]);
                    }
                }
            },
        }
    }
}

/// Opening a block and at once closing it pairs the two supplied positions
/// in a single new block, and touches none of the blocks already present.
pub proof fn lemma_open_close_round_trip(s: Seq<Block<Unbalanced>>, i: usize, j: usize)
    ensures
        ({
            let s1 = spec_step(s, Token::Left(i)).unwrap();
            let s2 = spec_step(s1, Token::Right(j)).unwrap();
            &&& spec_step(s, Token::Left(i)) is Some
            &&& spec_step(s1, Token::Right(j)) is Some
            &&& s2.len() == s.len() + 1
            &&& s2.last().opening() == i
            &&& s2.last().closing() == Some(j)
            &&& forall|k: int| 0 <= k < s.len() ==> (#[trigger] s2[k]) == s[k]
        }),
{
    lemma_open_block(i);
    let s1 = s.push(open_block(i));
    assert(s1.last() == open_block(i));
    assert(last_open(s1) == s1.len() - 1);
    lemma_close_block(open_block(i), j);
    let s2 = s1.update(s1.len() - 1, close_block(open_block(i), j));
    assert(s2.last() == close_block(open_block(i), j));
}

/// Balancing error.
#[derive(Clone, Copy, Debug, PartialEq, Eq, Structural)]
pub enum BalanceBlockError {
    /// A closing token was seen with no open block left to pair it with.
    ExtraRight,
    /// At validation time, one or more opened blocks were never closed.
    ExtraLeft,
}

/// A left-to-right block processor: feeds of opening and closing token
/// positions build up a stack of blocks, and consuming the processor yields
/// the fully paired blocks or an error naming the unbalanced side.
#[derive(Clone, Debug)]
pub struct Blocks {
    /// All blocks seen so far, in the order their opening tokens appeared.
    inner: Vec<Block<Unbalanced>>,
    /// Positions in `inner` of the blocks still awaiting a closing token,
    /// oldest first: the open-block stack.
    pending: Vec<usize>,
    /// Count of opening tokens seen minus those already matched: the depth
    /// of the open-block stack.
    lhs: usize,
    /// Count of closing tokens successfully matched so far.
    rhs: usize,
}

impl View for Blocks {
    type V = Seq<Block<Unbalanced>>;

    closed spec fn view(&self) -> Seq<Block<Unbalanced>> {
        self.inner@
    }
}

impl Blocks {
    /// The internal bookkeeping agrees with the blocks: `pending` lists
    /// exactly the open blocks' positions in increasing order, and the two
    /// counters partition the blocks into open and matched ones.
    pub closed spec fn wf(&self) -> bool {
        &&& self.lhs == self.pending@.len()
        &&& self.lhs == count_open(self.inner@)
        &&& self.lhs + self.rhs == self.inner@.len()
        &&& forall|i: int, j: int|
            0 <= i < j < self.pending@.len() ==> #[trigger] self.pending@[i]
                < #[trigger] self.pending@[j]
        &&& forall|i: int|
            0 <= i < self.pending@.len() ==> (#[trigger] self.pending@[i]) < self.inner@.len()
                && self.inner@[self.pending@[i] as int].closing() is None
        &&& forall|j: int|
            0 <= j < self.inner@.len() && (#[trigger] self.inner@[j]).closing() is None
                ==> exists|i: int|
                0 <= i < self.pending@.len() && self.pending@[i] == j
    }

    /// Number of opened blocks still awaiting their closing token.
    pub closed spec fn open_count(&self) -> usize {
        self.lhs
    }

    /// Number of closing tokens matched so far.
    pub closed spec fn matched_count(&self) -> usize {
        self.rhs
    }

    /// The two counters mean what they say: the open count is the number of
    /// blocks still awaiting their closing token, and together with the
    /// matched count it accounts for every block seen.
    pub proof fn lemma_counts(&self)
        requires
            self.wf(),
        ensures
            self.open_count() == count_open(self@),
            self.open_count() + self.matched_count() == self@.len(),
    {
    }

    /// In a well-formed processor there is a block left to close exactly
    /// when the open-block stack is non-empty.
    proof fn lemma_open_count_last_open(&self)
        requires
            self.wf(),
        ensures
            self.open_count() == 0 <==> last_open(self@) == -1,
            self.open_count() > 0 ==> last_open(self@) == self.pending@.last(),
    {
        if self.pending@.len() == 0 {
            assert forall|j: int| 0 <= j < self@.len() implies (#[trigger] self@[j]).closing()
                is Some by {
                if self@[j].closing() is None {
                    let i = choose|i: int|
                        0 <= i < self.pending@.len() && self.pending@[i] == j;
                }
            }
            lemma_last_open_none(self@);
        } else {
            let top = self.pending@.last() as int;
            assert(self.inner@[top].closing() is None);
            assert forall|k: int| top < k < self@.len() implies (#[trigger] self@[k]).closing()
                is Some by {
                if self@[k].closing() is None {
                    let i = choose|i: int|
                        0 <= i < self.pending@.len() && self.pending@[i] == k;
                    assert(self.pending@[i] <= self.pending@[self.pending@.len() - 1]);
                }
            }
            lemma_last_open_at(self@, top);
        }
    }

    /// Construct an empty processor: no blocks, both counters zero.
    pub fn new() -> (r: Self)
        ensures
            r.wf(),
            r@ == Seq::<Block<Unbalanced>>::empty(),
            r.open_count() == 0,
            r.matched_count() == 0,
    {
        Blocks { inner: Vec::new(), pending: Vec::new(), lhs: 0, rhs: 0 }
    }

    /// Record an opening token at `idx`: a new open block is appended.
    /// Always succeeds; an excess of opening tokens is only reported when
    /// the processor is consumed.
    pub fn add_left(&mut self, idx: usize)
        requires
            old(self).wf(),
        ensures
            final(self).wf(),
            final(self)@ == old(self)@.push(open_block(idx)),
            spec_step(old(self)@, Token::Left(idx)) == Some(final(self)@),
            final(self).open_count() == old(self).open_count() + 1,
            final(self).matched_count() == old(self).matched_count(),
    {
        proof {
            assert forall|i: int| 0 <= i < self.pending@.len()
                implies (#[trigger] self.pending@[i]) < self.inner@.len() + 1
                    && self.inner@.push(open_block(idx))[self.pending@[i] as int].closing()
                    is None by {
                assert(self.inner@.push(open_block(idx))[self.pending@[i] as int]
                    == self.inner@[self.pending@[i] as int]);
            }
        }
        self.inner.push(Block::open(idx));
        let n = self.inner.len();
        self.pending.push(n - 1);
        self.lhs = self.lhs + 1;
        proof {
            lemma_open_block(idx);
            lemma_count_open_push(old(self).inner@, open_block(idx));
            let s = self.inner@;
            assert forall|j: int|
                0 <= j < s.len() && (#[trigger] s[j]).closing() is None implies exists|i: int|
                0 <= i < self.pending@.len() && self.pending@[i] == j by {
                if j == s.len() - 1 {
                    assert(self.pending@[self.pending@.len() - 1] == j);
                } else {
                    let i = choose|i: int|
                        0 <= i < old(self).pending@.len() && old(self).pending@[i] == j;
                    assert(self.pending@[i] == j);
                }
            }
        }
    }

    /// Record a closing token at `idx`: it pairs with the most recently
    /// opened block that is still open.  When no block is open the call
    /// fails with [`BalanceBlockError::ExtraRight`] and leaves the
    /// processor exactly as it was.
    pub fn add_right(&mut self, idx: usize) -> (r: Result<(), BalanceBlockError>)
        requires
            old(self).wf(),
        ensures
            final(self).wf(),
            last_open(old(self)@) >= 0 ==> {
                &&& r is Ok
                &&& final(self)@ == old(self)@.update(
                    last_open(old(self)@),
                    close_block(old(self)@[last_open(old(self)@)], idx),
                )
                &&& spec_step(old(self)@, Token::Right(idx)) == Some(final(self)@)
                &&& final(self).open_count() == old(self).open_count() - 1
                &&& final(self).matched_count() == old(self).matched_count() + 1
            },
            last_open(old(self)@) < 0 ==> {
                &&& r == Err::<(), BalanceBlockError>(BalanceBlockError::ExtraRight)
                &&& *final(self) == *old(self)
                &&& spec_step(old(self)@, Token::Right(idx)) is None
            },
    {
        proof {
            self.lemma_open_count_last_open();
        }
        if self.lhs == 0 {
            return Err(BalanceBlockError::ExtraRight);
        }
        let j = match self.pending.pop() {
            Some(j) => j,
            None => {
                return Err(BalanceBlockError::ExtraRight);
            },
        };
        let ghost s0 = self.inner@;
        let ghost p0 = old(self).pending@;
        let opening = self.inner[j].opening;
        self.inner[j] = Block { opening, closing: Some(idx) };
        self.lhs = self.lhs - 1;
        let n = self.inner.len();
        proof {
            assert(self.rhs < n);
        }
        self.rhs = self.rhs + 1;
        proof {
            assert(self.inner@ == s0.update(j as int, close_block(s0[j as int], idx)));
            assert(self.pending@ == p0.drop_last());
            lemma_close_block(s0[j as int], idx);
            lemma_count_open_update(s0, j as int, close_block(s0[j as int], idx));
            assert forall|jj: int|
                0 <= jj < self.inner@.len() && (#[trigger] self.inner@[jj]).closing() is None
                implies exists|i: int|
                0 <= i < self.pending@.len() && self.pending@[i] == jj by {
                let i = choose|i: int| 0 <= i < p0.len() && p0[i] == jj;
                assert(i < p0.len() - 1);
                assert(self.pending@[i] == jj);
            }
        }
        Ok(())
    }

    /// Check whether the tokens seen so far are balanced: every opened
    /// block has been matched with a closing token.  A pure query; it may
    /// be called at any time, any number of times, with the same result
    /// until the processor is mutated.
    pub fn is_valid(&self) -> (r: bool)
        requires
            self.wf(),
        ensures
            r == all_closed(self@),
    {
        proof {
            self.lemma_open_count_last_open();
            if self.lhs == 0 {
                assert forall|j: int| 0 <= j < self@.len() implies (#[trigger] self@[j]).closing()
                    is Some by {
                    if self@[j].closing() is None {
                        let i = choose|i: int|
                            0 <= i < self.pending@.len() && self.pending@[i] == j;
                    }
                }
            } else {
                assert(self.inner@[self.pending@[0] as int].closing() is None);
            }
        }
        self.inner.len() == self.rhs
    }

    /// Check the validity of the structure and return the blocks with every
    /// pairing resolved, in the order their opening tokens appeared.  When
    /// some opened block was never closed the call fails with
    /// [`BalanceBlockError::ExtraLeft`].  Either way the processor is gone:
    /// validation is a one-shot, terminal step.
    pub fn consume(self) -> (r: Result<Vec<Block<Balanced>>, BalanceBlockError>)
        requires
            self.wf(),
        ensures
            r is Ok <==> all_closed(self@),
            r matches Ok(v) ==> v@.len() == self@.len() && forall|i: int|
                0 <= i < self@.len() ==> (#[trigger] v@[i]).opening() == self@[i].opening()
                    && self@[i].closing() == Some(v@[i].closing()),
            r is Err ==> r == Err::<Vec<Block<Balanced>>, BalanceBlockError>(
                BalanceBlockError::ExtraLeft,
            ),
    {
        if !self.is_valid() {
            return Err(BalanceBlockError::ExtraLeft);
        }
        let n = self.inner.len();
        let mut out: Vec<Block<Balanced>> = Vec::new();
        let mut k: usize = 0;
        while k < n
            invariant
                n == self@.len(),
                all_closed(self@),
                k <= n,
                out@.len() == k,
                forall|i: int|
                    0 <= i < k ==> (#[trigger] out@[i]).opening() == self@[i].opening()
                        && self@[i].closing() == Some(out@[i].closing()),
            decreases n - k,
        {
            let opening = self.inner[k].opening;
            let closing = match self.inner[k].closing {
                Some(c) => c,
                None => {
                    proof {
                        assert(self@[k as int].closing() is Some);
                    }
                    unreached()
                },
            };
            out.push(Block { opening, closing });
            k = k + 1;
        }
        Ok(out)
    }
}

} // verus!
