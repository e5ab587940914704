//! Who fetches what: the schedule of a download over many connections.
//!
//!   - a free stream takes the first waiting block, except one that its own network already failed
//!     to deliver, which is left to another network for as long as a stream there is free. Otherwise
//!     a network that is not answering gets handed the same block again and again while healthy ones
//!     sit idle.
//!   - a second attempt at a block someone else holds (a hedge) is only handed out once no block is
//!     left waiting, so it can never take bandwidth from work that still needs doing.
//!   - a block is hedged only once its holder has been at it for a while and still needs at least as
//!     long again.
//!
//! Times are milliseconds on any one clock.

use std::collections::HashMap;

use vstd::prelude::*;
use vstd::string::*;

use crate::text;

verus! {

/// A block is hedged once its holder has been at it this long and still needs as long again.
pub const HEDGE_AFTER_MS: u64 = 8000;

/// Bounds the duplicate work on a block whose hedges keep failing.
pub const MAX_HEDGES_PER_BLOCK: u32 = 2;

/// A block whose attempts all come back empty this many times stops the download: something is
/// wrong with the link or the mirror, and retrying for ever just hides it.
pub const MAX_ATTEMPTS_PER_BLOCK: u32 = 5;

#[derive(Debug, Clone, Copy, PartialEq, Eq, Structural)]
pub enum Status {
    Pending,
    Running,
    Done,
}

/// How fast a stream is: so many bytes in so many milliseconds.
#[derive(Debug, Clone, Copy, PartialEq, Eq, Structural)]
pub struct Speed {
    pub bytes: u64,
    pub ms: u64,
}

/// A stretch of the file.
pub struct Block {
    pub index: usize,
    pub start: u64,
    /// The last byte of it.
    pub end: u64,
    pub status: Status,
    /// How many bytes of it are there, from its start on without a gap.
    pub got: u64,
    /// A network whose last attempt on this block delivered nothing.
    pub avoid: Option<String>,
    pub hedges: u32,
    /// Attempts that delivered nothing.
    pub fails: u32,
    /// In-flight attempts: the stream, its network, and when it started.
    pub attempts: Vec<(usize, String, u64)>,
}

pub struct BlockView {
    pub index: usize,
    pub start: u64,
    pub end: u64,
    pub status: Status,
    pub got: u64,
    pub avoid: Option<Seq<char>>,
    pub hedges: u32,
    pub fails: u32,
    pub attempts: Seq<(usize, Seq<char>, u64)>,
}

pub open spec fn attempts_view(v: Seq<(usize, String, u64)>) -> Seq<(usize, Seq<char>, u64)> {
    Seq::new(v.len(), |i: int| (v[i].0, v[i].1@, v[i].2))
}

impl View for Block {
    type V = BlockView;

    open spec fn view(&self) -> BlockView {
        BlockView {
            index: self.index,
            start: self.start,
            end: self.end,
            status: self.status,
            got: self.got,
            avoid: text::text_opt(self.avoid),
            hedges: self.hedges,
            fails: self.fails,
            attempts: attempts_view(self.attempts@),
        }
    }
}

pub open spec fn blocks_view(v: Seq<Block>) -> Seq<BlockView> {
    Seq::new(v.len(), |i: int| v[i]@)
}

impl BlockView {
    /// How many bytes it spans.
    pub open spec fn size(self) -> int {
        self.end - self.start + 1
    }

    /// How many bytes of it are not there.
    pub open spec fn missing(self) -> int {
        if self.got < self.size() {
            self.size() - self.got
        } else {
            0
        }
    }
}

impl Block {
    /// How many bytes it spans.
    pub fn len(&self) -> (r: u64)
        requires
            self.start <= self.end,
            self.end - self.start < u64::MAX,
        ensures
            r == self@.size(),
    {
        self.end - self.start + 1
    }
}

// ---- counting idle streams ------------------------------------------------------------------

/// How many streams of each network wait for work.
pub struct Idle {
    entries: Vec<(String, usize)>,
}

impl View for Idle {
    type V = Map<Seq<char>, usize>;

    closed spec fn view(&self) -> Map<Seq<char>, usize> {
        counts_of(self.entries@)
    }
}

/// The counts that some entries give, the last entry for a name being the one that counts.
pub open spec fn counts_of(v: Seq<(String, usize)>) -> Map<Seq<char>, usize>
    decreases v.len(),
{
    if v.len() == 0 {
        Map::empty()
    } else {
        counts_of(v.drop_last()).insert(v.last().0@, v.last().1)
    }
}

/// Some other network than `net` has a stream free.
pub open spec fn other_free(idle: Map<Seq<char>, usize>, net: Seq<char>) -> bool {
    exists|n: Seq<char>| #[trigger] idle.dom().contains(n) && n != net && idle[n] > 0
}

/// Some network that is neither `holder` nor `avoid` has a stream free.
pub open spec fn third_free(
    idle: Map<Seq<char>, usize>,
    holder: Seq<char>,
    avoid: Option<Seq<char>>,
) -> bool {
    exists|n: Seq<char>|
        #[trigger] idle.dom().contains(n) && n != holder && idle[n] > 0 && avoid != Some(n)
}

impl Idle {
    /// No name has two entries.
    pub closed spec fn wf(&self) -> bool {
        forall|i: int, j: int|
            0 <= i < j < self.entries@.len() ==> (#[trigger] self.entries@[i]).0@ != (
            #[trigger] self.entries@[j]).0@
    }
}

proof fn lemma_counts(v: Seq<(String, usize)>, n: Seq<char>)
    requires
        forall|i: int, j: int|
            0 <= i < j < v.len() ==> (#[trigger] v[i]).0@ != (#[trigger] v[j]).0@,
    ensures
        counts_of(v).dom().contains(n) <==> exists|i: int| 0 <= i < v.len() && (#[trigger] v[i]).0@ == n,
        forall|i: int| 0 <= i < v.len() && (#[trigger] v[i]).0@ == n ==> counts_of(v)[n] == v[i].1,
    decreases v.len(),
{
    if v.len() > 0 {
        let w = v.drop_last();
        assert forall|i: int, j: int| 0 <= i < j < w.len() implies (#[trigger] w[i]).0@ != (
        #[trigger] w[j]).0@ by {
            assert(w[i] == v[i] && w[j] == v[j]);
        }
        lemma_counts(w, n);
        assert(forall|i: int| 0 <= i < w.len() ==> w[i] == v[i]);
        assert(v.last() == v[v.len() - 1]);
        if counts_of(w).dom().contains(n) {
            let k = choose|i: int| 0 <= i < w.len() && (#[trigger] w[i]).0@ == n;
            assert(v[k].0@ == n);
        }
        assert forall|i: int| 0 <= i < v.len() && (#[trigger] v[i]).0@ == n implies counts_of(v)[n]
            == v[i].1 by {
            if i < w.len() {
                assert(w[i].0@ == n);
                assert(v[v.len() - 1].0@ != v[i].0@);
            }
        }
    }
}

proof fn lemma_counts_update(v: Seq<(String, usize)>, k: int, e: (String, usize))
    requires
        0 <= k < v.len(),
        e.0@ == v[k].0@,
        forall|i: int, j: int|
            0 <= i < j < v.len() ==> (#[trigger] v[i]).0@ != (#[trigger] v[j]).0@,
    ensures
        counts_of(v.update(k, e)) == counts_of(v).insert(e.0@, e.1),
    decreases v.len(),
{
    let w = v.drop_last();
    if k == v.len() - 1 {
        assert(v.update(k, e).drop_last() =~= w);
        assert(counts_of(v.update(k, e)) =~= counts_of(v).insert(e.0@, e.1));
    } else {
        assert forall|i: int, j: int| 0 <= i < j < w.len() implies (#[trigger] w[i]).0@ != (
        #[trigger] w[j]).0@ by {
            assert(w[i] == v[i] && w[j] == v[j]);
        }
        lemma_counts_update(w, k, e);
        assert(v.update(k, e).drop_last() =~= w.update(k, e));
        assert(v[k].0@ != v[v.len() - 1].0@);
        assert(counts_of(v.update(k, e)) =~= counts_of(v).insert(e.0@, e.1));
    }
}

fn same_text(a: &str, b: &str) -> (r: bool)
    ensures
        r == (a@ == b@),
{
    text::same_str(&text::chars_of(a), b)
}

impl Idle {
    pub fn new() -> (r: Self)
        ensures
            r.wf(),
            r@ == Map::<Seq<char>, usize>::empty(),
    {
        Idle { entries: Vec::new() }
    }

    fn place(&self, net: &str) -> (r: Option<usize>)
        ensures
            match r {
                Some(i) => i < self.entries@.len() && self.entries@[i as int].0@ == net@,
                None => forall|i: int|
                    0 <= i < self.entries@.len() ==> (#[trigger] self.entries@[i]).0@ != net@,
            },
    {
        let mut i: usize = 0;
        while i < self.entries.len()
            invariant
                i <= self.entries@.len(),
                forall|j: int| 0 <= j < i ==> (#[trigger] self.entries@[j]).0@ != net@,
            decreases self.entries@.len() - i,
        {
            if same_text(&self.entries[i].0, net) {
                return Some(i);
            }
            i += 1;
        }
        None
    }

    /// Set the count of a network.
    pub fn insert(&mut self, net: String, count: usize)
        requires
            old(self).wf(),
        ensures
            final(self).wf(),
            final(self)@ == old(self)@.insert(net@, count),
    {
        let ghost before = self.entries@;
        match self.place(&net) {
            Some(i) => {
                proof {
                    lemma_counts_update(before, i as int, (net, count));
                }
                self.entries.set(i, (net, count));
                assert(self.entries@ =~= before.update(i as int, (net, count)));
            },
            None => {
                self.entries.push((net, count));
                assert(self.entries@.drop_last() =~= before);
            },
        }
    }

    /// The count of a network, if it has one.
    pub fn get(&self, net: &str) -> (r: Option<usize>)
        requires
            self.wf(),
        ensures
            r == (if self@.dom().contains(net@) {
                Some(self@[net@])
            } else {
                None
            }),
    {
        proof {
            lemma_counts(self.entries@, net@);
        }
        match self.place(net) {
            Some(i) => {
                assert(self.entries@[i as int].0@ == net@);
                Some(self.entries[i].1)
            },
            None => None,
        }
    }

    /// Whether another network than `net` has a stream free.
    pub fn another_free(&self, net: &str) -> (r: bool)
        requires
            self.wf(),
        ensures
            r == other_free(self@, net@),
    {
        let mut i: usize = 0;
        while i < self.entries.len()
            invariant
                self.wf(),
                i <= self.entries@.len(),
                forall|j: int|
                    0 <= j < i ==> (#[trigger] self.entries@[j]).0@ == net@ || self.entries@[j].1
                        == 0,
            decreases self.entries@.len() - i,
        {
            if self.entries[i].1 > 0 && !same_text(&self.entries[i].0, net) {
                proof {
                    let n = self.entries@[i as int].0@;
                    lemma_counts(self.entries@, n);
                    assert(self@.dom().contains(n));
                }
                return true;
            }
            i += 1;
        }
        proof {
            if other_free(self@, net@) {
                let n = choose|n: Seq<char>|
                    #[trigger] self@.dom().contains(n) && n != net@ && self@[n] > 0;
                lemma_counts(self.entries@, n);
            }
        }
        false
    }

    /// Whether a network that is neither `holder` nor `avoid` has a stream free.
    pub fn a_third_free(&self, holder: &str, avoid: &Option<String>) -> (r: bool)
        requires
            self.wf(),
        ensures
            r == third_free(self@, holder@, text::text_opt(*avoid)),
    {
        let mut i: usize = 0;
        while i < self.entries.len()
            invariant
                self.wf(),
                i <= self.entries@.len(),
                forall|j: int|
                    0 <= j < i ==> (#[trigger] self.entries@[j]).0@ == holder@
                        || self.entries@[j].1 == 0 || text::text_opt(*avoid) == Some(
                        self.entries@[j].0@,
                    ),
            decreases self.entries@.len() - i,
        {
            if self.entries[i].1 > 0 && !same_text(&self.entries[i].0, holder) && !avoids(
                avoid,
                &self.entries[i].0,
            ) {
                proof {
                    let n = self.entries@[i as int].0@;
                    lemma_counts(self.entries@, n);
                    assert(self@.dom().contains(n));
                }
                return true;
            }
            i += 1;
        }
        proof {
            let av = text::text_opt(*avoid);
            if third_free(self@, holder@, av) {
                let n = choose|n: Seq<char>|
                    #[trigger] self@.dom().contains(n) && n != holder@ && self@[n] > 0 && av
                        != Some(n);
                lemma_counts(self.entries@, n);
            }
        }
        false
    }
}

fn avoids(avoid: &Option<String>, net: &str) -> (r: bool)
    ensures
        r == (text::text_opt(*avoid) == Some(net@)),
{
    match avoid {
        Some(a) => same_text(a, net),
        None => false,
    }
}

// ---- the schedule ---------------------------------------------------------------------------

pub struct Plan {
    pub blocks: Vec<Block>,
    /// Streams waiting for work, by network, so the scheduler can tell whether another network
    /// could take a block instead of the one that just failed at it.
    pub idle_by_net: Idle,
    /// How fast each stream is.
    pub speed: HashMap<usize, Speed>,
}

pub struct PlanView {
    pub blocks: Seq<BlockView>,
    pub idle: Map<Seq<char>, usize>,
    pub speed: Map<usize, Speed>,
}

impl View for Plan {
    type V = PlanView;

    open spec fn view(&self) -> PlanView {
        PlanView {
            blocks: blocks_view(self.blocks@),
            idle: self.idle_by_net@,
            speed: self.speed@,
        }
    }
}

/// What a free stream is given to do.
#[derive(Debug, Clone, Copy, PartialEq, Eq, Structural)]
pub enum Work {
    Primary(usize),
    Hedge(usize),
    Nothing,
}

/// When a block will be there.
pub enum Eta {
    /// A holder that has gone quiet has no finish time at all.
    Never,
    /// After `num / den` milliseconds.
    After { num: nat, den: nat },
}

/// When a stream will have fetched `missing` bytes, as far as its speed tells.
pub open spec fn eta_of(speed: Map<usize, Speed>, stream: usize, missing: int) -> Eta {
    if speed.dom().contains(stream) && speed[stream].bytes * 1000 > speed[stream].ms {
        Eta::After { num: (missing * speed[stream].ms) as nat, den: speed[stream].bytes as nat }
    } else {
        Eta::Never
    }
}

/// It will be there before a hedge is worth it.
pub open spec fn soon(e: Eta) -> bool {
    match e {
        Eta::Never => false,
        Eta::After { num, den } => num < HEDGE_AFTER_MS * den,
    }
}

/// `a` is later than `b`.
pub open spec fn later(a: Eta, b: Eta) -> bool {
    match (a, b) {
        (Eta::Never, Eta::Never) => false,
        (Eta::Never, Eta::After { num: _, den: _ }) => true,
        (Eta::After { num: _, den: _ }, Eta::Never) => false,
        (Eta::After { num: an, den: ad }, Eta::After { num: bn, den: bd }) => an * bd > bn * ad,
    }
}

impl PlanView {
    /// A stream of `net` may take the block.
    pub open spec fn takes(self, b: BlockView, net: Seq<char>) -> bool {
        b.status == Status::Pending && !(other_free(self.idle, net) && b.avoid == Some(net))
    }

    /// The first block from `i` on that a stream of `net` may take.
    pub open spec fn waiting_from(self, net: Seq<char>, i: int) -> Option<usize>
        decreases self.blocks.len() - i,
    {
        if i < 0 || i >= self.blocks.len() {
            None
        } else if self.takes(self.blocks[i], net) {
            Some(self.blocks[i].index)
        } else {
            self.waiting_from(net, i + 1)
        }
    }

    pub open spec fn any_pending(self) -> bool {
        exists|i: int| 0 <= i < self.blocks.len() && #[trigger] self.blocks[i].status == Status::Pending
    }

    /// When the only holder of the block will be done with it.
    pub open spec fn holder_eta(self, b: BlockView) -> Eta {
        eta_of(self.speed, b.attempts[0].0, b.missing())
    }

    /// A second attempt at the block by this stream would be worth it.
    pub open spec fn hedgeable(self, b: BlockView, stream: usize, net: Seq<char>, now: u64) -> bool {
        &&& b.status == Status::Running
        &&& b.attempts.len() == 1
        &&& b.attempts[0].0 != stream
        &&& b.hedges < MAX_HEDGES_PER_BLOCK
        &&& b.avoid != Some(net)
        &&& now - b.attempts[0].2 >= HEDGE_AFTER_MS
        &&& b.missing() > 0
        &&& !soon(self.holder_eta(b))
        &&& !(b.attempts[0].1 == net && third_free(self.idle, b.attempts[0].1, b.avoid))
    }

    /// Where, among the first `n` blocks, the one stands whose holder will be longest yet.
    pub open spec fn slowest_upto(self, stream: usize, net: Seq<char>, now: u64, n: nat) -> Option<int>
        decreases n,
    {
        if n == 0 {
            None
        } else {
            let best = self.slowest_upto(stream, net, now, (n - 1) as nat);
            let b = self.blocks[n - 1];
            if self.hedgeable(b, stream, net, now) && (best is None || later(
                self.holder_eta(b),
                self.holder_eta(self.blocks[best->0]),
            )) {
                Some(n - 1)
            } else {
                best
            }
        }
    }

    /// The block most worth a second attempt.
    pub open spec fn hedge(self, stream: usize, net: Seq<char>, now: u64) -> Option<usize> {
        if self.any_pending() {
            None
        } else {
            match self.slowest_upto(stream, net, now, self.blocks.len()) {
                Some(i) => Some(self.blocks[i].index),
                None => None,
            }
        }
    }

    /// What a free stream does.
    pub open spec fn work(self, stream: usize, net: Seq<char>, now: u64) -> Work {
        match self.waiting_from(net, 0) {
            Some(i) => Work::Primary(i),
            None => match self.hedge(stream, net, now) {
                Some(i) => Work::Hedge(i),
                None => Work::Nothing,
            },
        }
    }

    pub open spec fn complete(self) -> bool {
        forall|i: int| 0 <= i < self.blocks.len() ==> #[trigger] self.blocks[i].status == Status::Done
    }

    /// Every block stands at its index and spans at least one byte, and one is done exactly when as
    /// many bytes are there as it spans.
    pub open spec fn sound(self) -> bool {
        forall|i: int|
            0 <= i < self.blocks.len() ==> {
                let b = #[trigger] self.blocks[i];
                b.index == i && b.start <= b.end && b.end - b.start < u64::MAX && (b.status
                    == Status::Done <==> b.got >= b.size())
            }
    }
}

/// `a / b` is greater than `c / d`.
fn greater(a: u128, b: u64, c: u128, d: u64) -> (r: bool)
    requires
        b > 0,
        d > 0,
    ensures
        r == (a * d > c * b),
{
    let q1: u128 = a / b as u128;
    let r1: u128 = a % b as u128;
    let q2: u128 = c / d as u128;
    let r2: u128 = c % d as u128;
    assert(a == q1 * b + r1 && c == q2 * d + r2) by {
        vstd::arithmetic::div_mod::lemma_fundamental_div_mod(a as int, b as int);
        vstd::arithmetic::div_mod::lemma_fundamental_div_mod(c as int, d as int);
        assert(q1 * b == b * q1) by (nonlinear_arith);
        assert(q2 * d == d * q2) by (nonlinear_arith);
    }
    assert(a * d == (q1 * b) * d + r1 * d) by (nonlinear_arith)
        requires
            a == q1 * b + r1,
    ;
    assert(c * b == (q2 * b) * d + r2 * b) by (nonlinear_arith)
        requires
            c == q2 * d + r2,
    ;
    if q1 != q2 {
        proof {
            if q1 > q2 {
                assert((q1 * b) * d >= (q2 * b) * d + b * d) by (nonlinear_arith)
                    requires
                        q1 >= q2 + 1,
                ;
                assert(r2 * b < b * d) by (nonlinear_arith)
                    requires
                        r2 < d,
                        b > 0,
                ;
                assert(r1 * d >= 0) by (nonlinear_arith);
            } else {
                assert((q2 * b) * d >= (q1 * b) * d + b * d) by (nonlinear_arith)
                    requires
                        q2 >= q1 + 1,
                ;
                assert(r1 * d < b * d) by (nonlinear_arith)
                    requires
                        r1 < b,
                        d > 0,
                ;
                assert(r2 * b >= 0) by (nonlinear_arith);
            }
        }
        return q1 > q2;
    }
    assert(r1 * d <= 0xffff_ffff_ffff_ffff * 0xffff_ffff_ffff_ffff) by (nonlinear_arith)
        requires
            r1 < b,
            b <= 0xffff_ffff_ffff_ffff,
            d <= 0xffff_ffff_ffff_ffff,
    ;
    assert(r2 * b <= 0xffff_ffff_ffff_ffff * 0xffff_ffff_ffff_ffff) by (nonlinear_arith)
        requires
            r2 < d,
            b <= 0xffff_ffff_ffff_ffff,
            d <= 0xffff_ffff_ffff_ffff,
    ;
    r1 * d as u128 > r2 * b as u128
}

/// When a block will be there, if ever: a fraction.
#[derive(Clone, Copy)]
struct Finish {
    num: u128,
    den: u64,
}

spec fn finish_view(f: Option<Finish>) -> Eta {
    match f {
        None => Eta::Never,
        Some(x) => Eta::After { num: x.num as nat, den: x.den as nat },
    }
}

fn finish_later(a: Option<Finish>, b: Option<Finish>) -> (r: bool)
    requires
        a is Some ==> a->0.den > 0,
        b is Some ==> b->0.den > 0,
    ensures
        r == later(finish_view(a), finish_view(b)),
{
    match a {
        None => b.is_some(),
        Some(x) => match b {
            None => false,
            Some(y) => greater(x.num, x.den, y.num, y.den),
        },
    }
}

impl Plan {
    pub open spec fn wf(&self) -> bool {
        &&& self.idle_by_net.wf()
        &&& self@.sound()
    }

    /// The first waiting block, skipping one this network already failed to deliver while some
    /// other network has a stream free to take it. With no other network free it is taken
    /// anyway, so a block can never be stranded.
    pub fn next_waiting(&self, net_id: &str) -> (r: Option<usize>)
        requires
            self.wf(),
        ensures
            r == self@.waiting_from(net_id@, 0),
    {
        let elsewhere: bool = self.idle_by_net.another_free(net_id);
        let mut i: usize = 0;
        while i < self.blocks.len()
            invariant
                i <= self.blocks@.len(),
                elsewhere == other_free(self@.idle, net_id@),
                self@.waiting_from(net_id@, 0) == self@.waiting_from(net_id@, i as int),
            decreases self.blocks@.len() - i,
        {
            let b: &Block = &self.blocks[i];
            assert(self@.blocks[i as int] == b@);
            if b.status == Status::Pending && !(elsewhere && avoids(&b.avoid, net_id)) {
                return Some(b.index);
            }
            i += 1;
        }
        None
    }

    fn pending_left(&self) -> (r: bool)
        ensures
            r == self@.any_pending(),
    {
        let mut i: usize = 0;
        while i < self.blocks.len()
            invariant
                i <= self.blocks@.len(),
                forall|j: int|
                    0 <= j < i ==> #[trigger] self@.blocks[j].status != Status::Pending,
            decreases self.blocks@.len() - i,
        {
            assert(self@.blocks[i as int] == self.blocks@[i as int]@);
            if self.blocks[i].status == Status::Pending {
                assert(self@.blocks[i as int].status == Status::Pending);
                return true;
            }
            i += 1;
        }
        false
    }

    fn finish_of(&self, stream: usize, missing: u64) -> (r: Option<Finish>)
        ensures
            finish_view(r) == eta_of(self@.speed, stream, missing as int),
            r is Some ==> r->0.den > 0,
    {
        broadcast use vstd::std_specs::hash::group_hash_axioms;

        match self.speed.get(&stream) {
            Some(s) => if s.bytes as u128 * 1000 > s.ms as u128 {
                assert(missing * s.ms <= 0xffff_ffff_ffff_ffff * 0xffff_ffff_ffff_ffff)
                    by (nonlinear_arith)
                    requires
                        missing <= 0xffff_ffff_ffff_ffff,
                        s.ms <= 0xffff_ffff_ffff_ffff,
                ;
                Some(Finish { num: missing as u128 * s.ms as u128, den: s.bytes })
            } else {
                None
            },
            None => None,
        }
    }

    /// The finish time of the holder, when a hedge of the block would be worth it.
    fn worth_a_hedge(&self, i: usize, stream: usize, net_id: &str, now: u64) -> (r: Option<
        Option<Finish>,
    >)
        requires
            self.wf(),
            i < self.blocks@.len(),
        ensures
            r is Some == self@.hedgeable(self@.blocks[i as int], stream, net_id@, now),
            r is Some ==> finish_view(r->0) == self@.holder_eta(self@.blocks[i as int]),
            r is Some && r->0 is Some ==> r->0->0.den > 0,
    {
        let b: &Block = &self.blocks[i];
        let ghost v = self@.blocks[i as int];
        assert(v == b@);
        if b.status != Status::Running || b.attempts.len() != 1 {
            return None;
        }
        let holder: usize = b.attempts[0].0;
        let started: u64 = b.attempts[0].2;
        assert(v.attempts[0] == (holder, b.attempts@[0].1@, started));
        if holder == stream || b.hedges >= MAX_HEDGES_PER_BLOCK || avoids(&b.avoid, net_id) {
            return None;
        }
        if now < started || now - started < HEDGE_AFTER_MS {
            return None;
        }
        let len: u64 = b.len();
        if b.got >= len {
            return None;
        }
        let finish: Option<Finish> = self.finish_of(holder, len - b.got);
        if let Some(f) = finish {
            if f.num < HEDGE_AFTER_MS as u128 * f.den as u128 {
                return None;
            }
        }
        if same_text(&b.attempts[0].1, net_id) && self.idle_by_net.a_third_free(
            &b.attempts[0].1,
            &b.avoid,
        ) {
            return None;
        }
        Some(finish)
    }

    /// The block most worth a second attempt: the one whose holder will be longest yet.
    pub fn next_hedge(&self, stream: usize, net_id: &str, now: u64) -> (r: Option<usize>)
        requires
            self.wf(),
        ensures
            r == self@.hedge(stream, net_id@, now),
    {
        if self.pending_left() {
            return None;
        }
        let mut target: Option<usize> = None;
        let mut latest: Option<Finish> = None;
        let mut i: usize = 0;
        while i < self.blocks.len()
            invariant
                self.wf(),
                i <= self.blocks@.len(),
                match target {
                    Some(t) => self@.slowest_upto(stream, net_id@, now, i as nat) == Some(t as int)
                        && t < self.blocks@.len() && finish_view(latest) == self@.holder_eta(
                        self@.blocks[t as int],
                    ) && (latest is Some ==> latest->0.den > 0),
                    None => self@.slowest_upto(stream, net_id@, now, i as nat) is None,
                },
            decreases self.blocks@.len() - i,
        {
            if let Some(finish) = self.worth_a_hedge(i, stream, net_id, now) {
                if target.is_none() || finish_later(finish, latest) {
                    target = Some(i);
                    latest = finish;
                }
            }
            i += 1;
        }
        match target {
            Some(t) => {
                assert(self@.blocks[t as int] == self.blocks@[t as int]@);
                Some(self.blocks[t].index)
            },
            None => None,
        }
    }

    /// What a free stream does: a waiting block if there is one it may take, or else a hedge.
    pub fn pick(&self, stream: usize, net_id: &str, now: u64) -> (r: Work)
        requires
            self.wf(),
        ensures
            r == self@.work(stream, net_id@, now),
    {
        if let Some(i) = self.next_waiting(net_id) {
            return Work::Primary(i);
        }
        if let Some(i) = self.next_hedge(stream, net_id, now) {
            return Work::Hedge(i);
        }
        Work::Nothing
    }

    pub fn finished(&self) -> (r: bool)
        ensures
            r == self@.complete(),
    {
        let mut i: usize = 0;
        while i < self.blocks.len()
            invariant
                i <= self.blocks@.len(),
                forall|j: int| 0 <= j < i ==> #[trigger] self@.blocks[j].status == Status::Done,
            decreases self.blocks@.len() - i,
        {
            assert(self@.blocks[i as int] == self.blocks@[i as int]@);
            if self.blocks[i].status != Status::Done {
                assert(self@.blocks[i as int].status != Status::Done);
                return false;
            }
            i += 1;
        }
        true
    }
}

// ---- starting an attempt --------------------------------------------------------------------

/// The bytes that an attempt is to fetch: `start` to `end`, of block `index`.
#[derive(Debug, Clone, Copy, PartialEq, Eq, Structural)]
pub struct Job {
    pub index: usize,
    pub start: u64,
    pub end: u64,
}

/// The block once a stream has started on it.
pub open spec fn begun_block(
    b: BlockView,
    stream: usize,
    net: Seq<char>,
    now: u64,
    hedge: bool,
) -> BlockView {
    BlockView {
        hedges: if hedge {
            (b.hedges + 1) as u32
        } else {
            b.hedges
        },
        status: Status::Running,
        attempts: b.attempts.push((stream, net, now)),
        ..b
    }
}

/// The counts once a stream of `net` has gone to work.
pub open spec fn one_less(idle: Map<Seq<char>, usize>, net: Seq<char>) -> Map<Seq<char>, usize> {
    if idle.dom().contains(net) && idle[net] > 0 {
        idle.insert(net, (idle[net] - 1) as usize)
    } else {
        idle
    }
}

/// The counts once a stream of `net` is free again.
pub open spec fn one_more(idle: Map<Seq<char>, usize>, net: Seq<char>) -> Map<Seq<char>, usize> {
    if idle.dom().contains(net) {
        idle.insert(net, (idle[net] + 1) as usize)
    } else {
        idle.insert(net, 1)
    }
}

impl PlanView {
    pub open spec fn begun(
        self,
        i: usize,
        stream: usize,
        net: Seq<char>,
        now: u64,
        hedge: bool,
    ) -> PlanView {
        PlanView {
            blocks: self.blocks.update(
                i as int,
                begun_block(self.blocks[i as int], stream, net, now, hedge),
            ),
            idle: one_less(self.idle, net),
            ..self
        }
    }

    /// The plan once the stream has taken what there is for it.
    pub open spec fn taken(self, stream: usize, net: Seq<char>, now: u64) -> PlanView {
        match self.work(stream, net, now) {
            Work::Primary(i) => self.begun(i, stream, net, now, false),
            Work::Hedge(i) => self.begun(i, stream, net, now, true),
            Work::Nothing => self,
        }
    }

    /// What the stream is to fetch.
    pub open spec fn job(self, stream: usize, net: Seq<char>, now: u64) -> Option<Job> {
        match self.work(stream, net, now) {
            Work::Primary(i) => Some(self.rest_of(i)),
            Work::Hedge(i) => Some(self.rest_of(i)),
            Work::Nothing => None,
        }
    }

    /// What is still missing of block `i`.
    pub open spec fn rest_of(self, i: usize) -> Job {
        let b = self.blocks[i as int];
        Job { index: i, start: (b.start + b.got) as u64, end: b.end }
    }
}

proof fn lemma_waiting(p: PlanView, net: Seq<char>, i: int)
    requires
        p.sound(),
        0 <= i,
    ensures
        match p.waiting_from(net, i) {
            Some(k) => i <= k < p.blocks.len() && p.takes(p.blocks[k as int], net) && forall|j: int|
                i <= j < k ==> !p.takes(#[trigger] p.blocks[j], net),
            None => forall|j: int| i <= j < p.blocks.len() ==> !p.takes(#[trigger] p.blocks[j], net),
        },
    decreases p.blocks.len() - i,
{
    if i < p.blocks.len() {
        if !p.takes(p.blocks[i], net) {
            lemma_waiting(p, net, i + 1);
        }
        assert(p.blocks[i].index == i);
    }
}

proof fn lemma_slowest(p: PlanView, stream: usize, net: Seq<char>, now: u64, n: nat)
    requires
        n <= p.blocks.len(),
    ensures
        match p.slowest_upto(stream, net, now, n) {
            Some(k) => 0 <= k < n && p.hedgeable(p.blocks[k], stream, net, now),
            None => forall|j: int|
                0 <= j < n ==> !p.hedgeable(#[trigger] p.blocks[j], stream, net, now),
        },
    decreases n,
{
    if n > 0 {
        lemma_slowest(p, stream, net, now, (n - 1) as nat);
    }
}

proof fn lemma_work(p: PlanView, stream: usize, net: Seq<char>, now: u64)
    requires
        p.sound(),
    ensures
        match p.work(stream, net, now) {
            Work::Primary(i) => i < p.blocks.len() && p.takes(p.blocks[i as int], net),
            Work::Hedge(i) => i < p.blocks.len() && p.hedgeable(
                p.blocks[i as int],
                stream,
                net,
                now,
            ) && !p.any_pending(),
            Work::Nothing => true,
        },
{
    lemma_waiting(p, net, 0);
    lemma_slowest(p, stream, net, now, p.blocks.len());
    if let Some(k) = p.slowest_upto(stream, net, now, p.blocks.len()) {
        assert(p.blocks[k].index == k);
    }
}

impl Plan {
    fn begin(&mut self, i: usize, stream: usize, net_id: &str, now: u64, hedge: bool) -> (r: Job)
        requires
            old(self).wf(),
            i < old(self).blocks@.len(),
            old(self)@.blocks[i as int].status != Status::Done,
            hedge ==> old(self)@.blocks[i as int].hedges < MAX_HEDGES_PER_BLOCK,
        ensures
            final(self).wf(),
            final(self)@ == old(self)@.begun(i, stream, net_id@, now, hedge),
            r == old(self)@.rest_of(i),
    {
        let ghost before = self@;
        assert(before.blocks[i as int] == self.blocks@[i as int]@);
        let r: Job = Job {
            index: i,
            start: self.blocks[i].start + self.blocks[i].got,
            end: self.blocks[i].end,
        };
        if hedge {
            self.blocks[i].hedges = self.blocks[i].hedges + 1;
        }
        self.blocks[i].status = Status::Running;
        self.blocks[i].attempts.push((stream, net_id.to_owned(), now));
        match self.idle_by_net.get(net_id) {
            Some(c) => if c > 0 {
                self.idle_by_net.insert(net_id.to_owned(), c - 1);
            },
            None => {},
        }
        proof {
            let b = before.blocks[i as int];
            let after = begun_block(b, stream, net_id@, now, hedge);
            assert(self.blocks@[i as int]@.attempts =~= after.attempts);
            assert(self.blocks@[i as int]@ == after);
            assert(self@.blocks =~= before.blocks.update(i as int, after));
            assert(after.size() == b.size());
            assert forall|j: int| 0 <= j < self@.blocks.len() implies {
                let x = #[trigger] self@.blocks[j];
                x.index == j && x.start <= x.end && x.end - x.start < u64::MAX && (x.status
                    == Status::Done <==> x.got >= x.size())
            } by {
                assert(before.blocks[j].index == j);
            }
        }
        r
    }

    /// Hand the stream what there is for it, and mark it as being worked on.
    pub fn take(&mut self, stream: usize, net_id: &str, now: u64) -> (r: Option<Job>)
        requires
            old(self).wf(),
        ensures
            final(self).wf(),
            final(self)@ == old(self)@.taken(stream, net_id@, now),
            r == old(self)@.job(stream, net_id@, now),
    {
        proof {
            lemma_work(self@, stream, net_id@, now);
        }
        match self.pick(stream, net_id, now) {
            Work::Primary(i) => Some(self.begin(i, stream, net_id, now, false)),
            Work::Hedge(i) => Some(self.begin(i, stream, net_id, now, true)),
            Work::Nothing => None,
        }
    }
}

// ---- ending an attempt ----------------------------------------------------------------------

/// What becomes of a stream after its attempt.
pub enum Settled {
    /// The block is done; these blocks are now, to be put on record.
    Saved(Vec<usize>),
    /// It goes on.
    Going,
    /// The download is to stop.
    GiveUp,
}

pub enum SettledView {
    Saved(Seq<usize>),
    Going,
    GiveUp,
}

impl View for Settled {
    type V = SettledView;

    open spec fn view(&self) -> SettledView {
        match self {
            Settled::Saved(v) => SettledView::Saved(v@),
            Settled::Going => SettledView::Going,
            Settled::GiveUp => SettledView::GiveUp,
        }
    }
}

/// The attempts of other streams.
pub open spec fn of_others(a: Seq<(usize, Seq<char>, u64)>, stream: usize) -> Seq<
    (usize, Seq<char>, u64),
>
    decreases a.len(),
{
    if a.len() == 0 {
        seq![]
    } else if a.last().0 != stream {
        of_others(a.drop_last(), stream).push(a.last())
    } else {
        of_others(a.drop_last(), stream)
    }
}

/// The status of a block that is not done, once these attempts are left.
pub open spec fn status_with(status: Status, attempts: Seq<(usize, Seq<char>, u64)>) -> Status {
    if attempts.len() == 0 {
        Status::Pending
    } else {
        status
    }
}

/// How much of the block is there once an attempt that began at `start` came back with `got`: so many
/// bytes, or an error. Attempts at one block can overlap, so what counts is how far into the block its
/// bytes are there without a gap, not how many came.
pub open spec fn arrived(b: BlockView, start: u64, got: Result<u64, Seq<char>>) -> int {
    match got {
        Ok(n) => {
            let upto = if start + n <= b.end {
                start + n - b.start
            } else {
                b.size()
            };
            if upto > b.got {
                upto
            } else {
                b.got as int
            }
        },
        Err(_) => b.got as int,
    }
}

/// The attempt delivered nothing, like all before it.
pub open spec fn empty_handed(b: BlockView, got: Result<u64, Seq<char>>) -> bool {
    b.status != Status::Done && b.got == 0 && (got is Err || got == Ok::<u64, Seq<char>>(0))
}

/// The block after a stream of `net` came back with `got` from an attempt that began at `start`.
pub open spec fn settled_block(
    b: BlockView,
    stream: usize,
    net: Seq<char>,
    start: u64,
    got: Result<u64, Seq<char>>,
) -> BlockView {
    let left = of_others(b.attempts, stream);
    if b.status == Status::Done {
        // a hedge lost the race; its bytes were identical anyway
        BlockView { attempts: left, ..b }
    } else if arrived(b, start, got) >= b.size() {
        BlockView {
            got: arrived(b, start, got) as u64,
            status: Status::Done,
            attempts: seq![],
            ..b
        }
    } else {
        // whatever is still missing is still owed
        BlockView {
            got: arrived(b, start, got) as u64,
            avoid: if empty_handed(b, got) {
                Some(net)
            } else {
                b.avoid
            },
            fails: if empty_handed(b, got) {
                (b.fails + 1) as u32
            } else {
                b.fails
            },
            status: status_with(b.status, left),
            attempts: left,
            ..b
        }
    }
}

/// The indices of the blocks that are done.
pub open spec fn done_list(blocks: Seq<BlockView>) -> Seq<usize>
    decreases blocks.len(),
{
    if blocks.len() == 0 {
        seq![]
    } else if blocks.last().status == Status::Done {
        done_list(blocks.drop_last()).push(blocks.last().index)
    } else {
        done_list(blocks.drop_last())
    }
}

pub open spec fn got_view(got: Result<u64, String>) -> Result<u64, Seq<char>> {
    match got {
        Ok(n) => Ok(n),
        Err(e) => Err(e@),
    }
}

impl PlanView {
    pub open spec fn settled(
        self,
        job: Job,
        stream: usize,
        net: Seq<char>,
        got: Result<u64, Seq<char>>,
    ) -> PlanView {
        let i = job.index as int;
        PlanView {
            blocks: self.blocks.update(
                i,
                settled_block(self.blocks[i], stream, net, job.start, got),
            ),
            idle: one_more(self.idle, net),
            ..self
        }
    }

    /// What becomes of the stream.
    pub open spec fn verdict(
        self,
        job: Job,
        stream: usize,
        net: Seq<char>,
        got: Result<u64, Seq<char>>,
    ) -> SettledView {
        let b = self.blocks[job.index as int];
        let after = self.settled(job, stream, net, got);
        if b.status != Status::Done && after.blocks[job.index as int].status == Status::Done {
            SettledView::Saved(done_list(after.blocks))
        } else if (got is Err || empty_handed(b, got)) && after.blocks[job.index as int].fails
            >= MAX_ATTEMPTS_PER_BLOCK {
            SettledView::GiveUp
        } else {
            SettledView::Going
        }
    }

    /// The job is one that was handed out: it began in its block where the bytes that were there
    /// ended, and that only moves on.
    pub open spec fn handed_out(self, job: Job) -> bool {
        let b = self.blocks[job.index as int];
        job.index < self.blocks.len() && b.start <= job.start <= b.start + b.got
    }

    /// No count runs over.
    pub open spec fn room(self, job: Job, net: Seq<char>) -> bool {
        &&& self.handed_out(job)
        &&& self.idle.dom().contains(net) ==> self.idle[net] < usize::MAX
        &&& self.blocks[job.index as int].fails < u32::MAX
    }
}

/// The first failure stays on record.
pub open spec fn first_failure(failed: Option<Seq<char>>, got: Result<u64, Seq<char>>) -> Option<
    Seq<char>,
> {
    match got {
        Ok(_) => failed,
        Err(e) => match failed {
            Some(f) => Some(f),
            None => Some(e),
        },
    }
}

fn drop_stream(v: &mut Vec<(usize, String, u64)>, stream: usize)
    ensures
        attempts_view(final(v)@) == of_others(attempts_view(old(v)@), stream),
{
    let ghost all = attempts_view(v@);
    let mut out: Vec<(usize, String, u64)> = Vec::new();
    let mut i: usize = 0;
    while i < v.len()
        invariant
            i <= v@.len(),
            all == attempts_view(v@),
            attempts_view(out@) == of_others(all.take(i as int), stream),
        decreases v@.len() - i,
    {
        assert(all.take(i + 1).drop_last() =~= all.take(i as int));
        assert(all[i as int] == (v@[i as int].0, v@[i as int].1@, v@[i as int].2));
        if v[i].0 != stream {
            let ghost before = out@;
            out.push((v[i].0, v[i].1.clone(), v[i].2));
            assert(attempts_view(out@) =~= attempts_view(before).push(all[i as int]));
        }
        i += 1;
    }
    assert(all.take(i as int) =~= all);
    *v = out;
}

impl Plan {
    /// The blocks that are done.
    pub fn done_indices(&self) -> (r: Vec<usize>)
        ensures
            r@ == done_list(self@.blocks),
    {
        let ghost all = self@.blocks;
        let mut out: Vec<usize> = Vec::new();
        let mut i: usize = 0;
        while i < self.blocks.len()
            invariant
                i <= self.blocks@.len(),
                all == self@.blocks,
                out@ == done_list(all.take(i as int)),
            decreases self.blocks@.len() - i,
        {
            assert(all.take(i + 1).drop_last() =~= all.take(i as int));
            assert(all[i as int] == self.blocks@[i as int]@);
            if self.blocks[i].status == Status::Done {
                out.push(self.blocks[i].index);
            }
            i += 1;
        }
        assert(all.take(i as int) =~= all);
        out
    }

    /// Whether the outcome of a job can be booked: it was handed out, and no count runs over.
    pub fn has_room(&self, job: Job, net_id: &str) -> (r: bool)
        requires
            self.wf(),
        ensures
            r == self@.room(job, net_id@),
    {
        let i: usize = job.index;
        if i >= self.blocks.len() {
            return false;
        }
        assert(self@.blocks[i as int] == self.blocks@[i as int]@);
        let counted: bool = match self.idle_by_net.get(net_id) {
            Some(c) => c < usize::MAX,
            None => true,
        };
        counted && self.blocks[i].fails < u32::MAX && self.blocks[i].start <= job.start && job.start
            - self.blocks[i].start <= self.blocks[i].got
    }

    fn settle_block(&mut self, job: Job, stream: usize, net_id: &str, got: &Result<u64, String>)
        requires
            old(self)@.sound(),
            old(self)@.room(job, net_id@),
        ensures
            final(self)@.blocks == old(self)@.blocks.update(
                job.index as int,
                settled_block(
                    old(self)@.blocks[job.index as int],
                    stream,
                    net_id@,
                    job.start,
                    got_view(*got),
                ),
            ),
            final(self).idle_by_net == old(self).idle_by_net,
            final(self).speed == old(self).speed,
    {
        let ghost before = self@;
        let i: usize = job.index;
        let ghost b = self@.blocks[i as int];
        assert(b == self.blocks@[i as int]@);
        drop_stream(&mut self.blocks[i].attempts, stream);
        let len: u64 = self.blocks[i].len();
        if self.blocks[i].status != Status::Done {
            let empty: bool = match got {
                Ok(n) => *n == 0,
                Err(_) => true,
            };
            if empty && self.blocks[i].got == 0 {
                self.blocks[i].avoid = Some(net_id.to_owned());
                self.blocks[i].fails = self.blocks[i].fails + 1;
            }
            if let Ok(n) = got {
                let ahead: u64 = job.start - self.blocks[i].start;
                let upto: u64 = if ahead < len && *n < len - ahead {
                    ahead + *n
                } else {
                    len
                };
                if upto > self.blocks[i].got {
                    self.blocks[i].got = upto;
                }
            }
            if self.blocks[i].got >= len {
                self.blocks[i].status = Status::Done;
                self.blocks[i].attempts = Vec::new();
            } else if self.blocks[i].attempts.len() == 0 {
                self.blocks[i].status = Status::Pending;
            }
        }
        proof {
            let after = settled_block(b, stream, net_id@, job.start, got_view(*got));
            assert(self.blocks@[i as int]@.attempts =~= after.attempts);
            assert(self.blocks@[i as int]@ == after);
            assert(self@.blocks =~= before.blocks.update(i as int, after));
        }
    }

    /// Book what a job came back with from a stream of `net_id`.
    pub fn settle(
        &mut self,
        job: Job,
        stream: usize,
        net_id: &str,
        got: &Result<u64, String>,
        failed: &mut Option<String>,
    ) -> (r: Settled)
        requires
            old(self).wf(),
            old(self)@.room(job, net_id@),
        ensures
            final(self).wf(),
            final(self)@ == old(self)@.settled(job, stream, net_id@, got_view(*got)),
            r@ == old(self)@.verdict(job, stream, net_id@, got_view(*got)),
            text::text_opt(*final(failed)) == first_failure(
                text::text_opt(*old(failed)),
                got_view(*got),
            ),
    {
        let ghost before = self@;
        let i: usize = job.index;
        assert(before.blocks[i as int] == self.blocks@[i as int]@);
        let was_done: bool = self.blocks[i].status == Status::Done;
        let empty: bool = match got {
            Ok(n) => *n == 0 && !was_done && self.blocks[i].got == 0,
            Err(_) => true,
        };
        self.settle_block(job, stream, net_id, got);
        match self.idle_by_net.get(net_id) {
            Some(c) => self.idle_by_net.insert(net_id.to_owned(), c + 1),
            None => self.idle_by_net.insert(net_id.to_owned(), 1),
        }
        proof {
            lemma_settled_sound(before, job, stream, net_id@, got_view(*got));
            assert(self@ == before.settled(job, stream, net_id@, got_view(*got)));
            assert(self@.blocks.len() == self.blocks@.len());
            assert(self@.blocks.len() == before.blocks.len());
            assert(self@.blocks[i as int] == self.blocks@[i as int]@);
        }
        if let Err(e) = got {
            if failed.is_none() {
                *failed = Some(e.clone());
            }
        }
        if !was_done && self.blocks[i].status == Status::Done {
            Settled::Saved(self.done_indices())
        } else if empty && self.blocks[i].fails >= MAX_ATTEMPTS_PER_BLOCK {
            Settled::GiveUp
        } else {
            Settled::Going
        }
    }
}

proof fn lemma_settled_sound(
    p: PlanView,
    job: Job,
    stream: usize,
    net: Seq<char>,
    got: Result<u64, Seq<char>>,
)
    requires
        p.sound(),
        p.handed_out(job),
    ensures
        p.settled(job, stream, net, got).sound(),
{
    let q = p.settled(job, stream, net, got);
    let i = job.index as int;
    let b = p.blocks[i];
    assert(settled_block(b, stream, net, job.start, got).size() == b.size());
    assert forall|j: int| 0 <= j < q.blocks.len() implies {
        let x = #[trigger] q.blocks[j];
        x.index == j && x.start <= x.end && x.end - x.start < u64::MAX && (x.status == Status::Done
            <==> x.got >= x.size())
    } by {
        assert(p.blocks[j].index == j);
    }
}

// ---- laying out the blocks ------------------------------------------------------------------

/// How many blocks of `block` bytes cover `size` bytes.
pub open spec fn block_count(size: u64, block: u64) -> nat {
    ((size + block - 1) / block as int) as nat
}

/// Block `i` of a file of `size` bytes.
pub open spec fn nth_block(size: u64, block: u64, already: Seq<usize>, i: int) -> BlockView {
    let start = i * block;
    let end = if start + block <= size {
        start + block - 1
    } else {
        size - 1
    };
    let done = already.contains(i as usize);
    BlockView {
        index: i as usize,
        start: start as u64,
        end: end as u64,
        status: if done {
            Status::Done
        } else {
            Status::Pending
        },
        got: if done {
            (end - start + 1) as u64
        } else {
            0
        },
        avoid: None,
        hedges: 0,
        fails: 0,
        attempts: seq![],
    }
}

/// The blocks of a file of `size` bytes, of which those in `already` are there.
pub open spec fn layout(size: u64, block: u64, already: Seq<usize>) -> Seq<BlockView> {
    Seq::new(block_count(size, block), |i: int| nth_block(size, block, already, i))
}

/// The first `n` streams of each network, numbered through.
pub open spec fn streams_of(nets: Seq<Seq<char>>, per: nat) -> Seq<Seq<char>>
    decreases nets.len(),
{
    if nets.len() == 0 {
        seq![]
    } else {
        streams_of(nets.drop_last(), per) + Seq::new(per, |i: int| nets.last())
    }
}

/// The counts when all these streams are free.
pub open spec fn all_idle(streams: Seq<Seq<char>>) -> Map<Seq<char>, usize>
    decreases streams.len(),
{
    if streams.len() == 0 {
        Map::empty()
    } else {
        one_more(all_idle(streams.drop_last()), streams.last())
    }
}

/// How many bytes of the blocks that are done there are.
pub open spec fn bytes_done(blocks: Seq<BlockView>) -> int
    decreases blocks.len(),
{
    if blocks.len() == 0 {
        0
    } else if blocks.last().status == Status::Done {
        bytes_done(blocks.drop_last()) + blocks.last().size()
    } else {
        bytes_done(blocks.drop_last())
    }
}

proof fn lemma_block_bounds(size: u64, block: u64, i: int)
    requires
        block > 0,
        0 <= i < block_count(size, block),
    ensures
        0 <= i * block < size,
        i * block + block <= size ==> (i + 1) * block <= size,
        (i + 1) * block == i * block + block,
{
    let n = block_count(size, block) as int;
    vstd::arithmetic::div_mod::lemma_fundamental_div_mod(size + block - 1, block as int);
    assert(n * block <= size + block - 1) by (nonlinear_arith)
        requires
            size + block - 1 == block * n + (size + block - 1) % (block as int),
            (size + block - 1) % (block as int) >= 0,
            block > 0,
    ;
    assert((i + 1) * block <= n * block) by (nonlinear_arith)
        requires
            i + 1 <= n,
            block > 0,
    ;
    assert((i + 1) * block == i * block + block) by (nonlinear_arith);
    assert(i * block >= 0) by (nonlinear_arith)
        requires
            i >= 0,
            block > 0,
    ;
}

proof fn lemma_count_reached(size: u64, block: u64, i: int)
    requires
        block > 0,
        i >= 0,
        i * block >= size,
        i > 0 ==> (i - 1) * block < size,
    ensures
        i == block_count(size, block),
{
    let n = block_count(size, block) as int;
    vstd::arithmetic::div_mod::lemma_fundamental_div_mod(size + block - 1, block as int);
    let r = (size + block - 1) % (block as int);
    assert(0 <= r < block);
    if i < n {
        assert(i * block + block <= n * block) by (nonlinear_arith)
            requires
                i + 1 <= n,
                block > 0,
        ;
        assert(n * block == block * n) by (nonlinear_arith);
    } else if i > n {
        assert((i - 1) * block >= n * block) by (nonlinear_arith)
            requires
                i - 1 >= n,
                block > 0,
        ;
        assert(n * block == block * n) by (nonlinear_arith);
    }
}

fn has_index(v: &Vec<usize>, i: usize) -> (r: bool)
    ensures
        r == v@.contains(i),
{
    let mut k: usize = 0;
    while k < v.len()
        invariant
            k <= v@.len(),
            forall|j: int| 0 <= j < k ==> v@[j] != i,
        decreases v@.len() - k,
    {
        if v[k] == i {
            return true;
        }
        k += 1;
    }
    false
}

fn lay_out(size: u64, block: u64, already: &Vec<usize>) -> (r: Vec<Block>)
    requires
        block > 0,
        block_count(size, block) <= usize::MAX,
    ensures
        blocks_view(r@) == layout(size, block, already@),
{
    let ghost want = layout(size, block, already@);
    let mut v: Vec<Block> = Vec::new();
    let mut start: u64 = 0;
    let mut index: usize = 0;
    assert(0 * block == 0) by (nonlinear_arith);
    while start < size
        invariant
            block > 0,
            block_count(size, block) <= usize::MAX,
            want == layout(size, block, already@),
            index == v@.len(),
            index <= block_count(size, block),
            start == (if index * block <= size {
                index * block
            } else {
                size as int
            }),
            index > 0 ==> (index - 1) * block < size,
            blocks_view(v@) == want.take(index as int),
        decreases size - start,
    {
        proof {
            if index >= block_count(size, block) {
                let n = block_count(size, block) as int;
                vstd::arithmetic::div_mod::lemma_fundamental_div_mod(
                    size + block - 1,
                    block as int,
                );
                assert(n * block == block * n) by (nonlinear_arith);
                assert(false);
            }
            lemma_block_bounds(size, block, index as int);
        }
        let end: u64 = if block - 1 < size - 1 - start {
            start + block - 1
        } else {
            size - 1
        };
        let done: bool = has_index(already, index);
        let b: Block = Block {
            index,
            start,
            end,
            status: if done {
                Status::Done
            } else {
                Status::Pending
            },
            got: if done {
                end - start + 1
            } else {
                0
            },
            avoid: None,
            hedges: 0,
            fails: 0,
            attempts: Vec::new(),
        };
        let ghost before = v@;
        assert(b@.attempts =~= seq![]);
        assert(b@ == nth_block(size, block, already@, index as int));
        v.push(b);
        assert(blocks_view(v@) =~= blocks_view(before).push(b@));
        assert(want.take(index + 1) =~= want.take(index as int).push(want[index as int]));
        start = end + 1;
        index += 1;
    }
    proof {
        assert(index * block >= size) by {
            if index * block < size {
                assert(start == index * block);
            }
        }
        lemma_count_reached(size, block, index as int);
        assert(want.take(index as int) =~= want);
    }
    v
}

proof fn lemma_layout_sound(size: u64, block: u64, already: Seq<usize>, i: int)
    requires
        block > 0,
        block_count(size, block) <= usize::MAX,
        0 <= i < block_count(size, block),
    ensures
        ({
            let b = nth_block(size, block, already, i);
            &&& b.index == i
            &&& b.start == i * block
            &&& b.start <= b.end < size
            &&& b.end - b.start < block
            &&& b.got == if b.status == Status::Done {
                b.size()
            } else {
                0
            }
            &&& i + 1 < block_count(size, block) ==> b.end + 1 == (i + 1) * block
            &&& i + 1 == block_count(size, block) ==> b.end == size - 1
        }),
{
    lemma_block_bounds(size, block, i);
    if i + 1 < block_count(size, block) {
        lemma_block_bounds(size, block, i + 1);
    } else {
        let n = block_count(size, block) as int;
        vstd::arithmetic::div_mod::lemma_fundamental_div_mod(size + block - 1, block as int);
        assert(n * block == block * n) by (nonlinear_arith);
        assert(n * block >= size);
    }
}

/// The streams of each network, numbered through: the network of stream `i` stands at place `i`.
pub fn stream_nets(nets: &Vec<String>, per: usize) -> (r: Vec<String>)
    ensures
        text::strings(r@) == streams_of(text::strings(nets@), per as nat),
{
    let ghost all = text::strings(nets@);
    let mut out: Vec<String> = Vec::new();
    let mut i: usize = 0;
    assert(text::strings(out@) =~= streams_of(all.take(0), per as nat));
    while i < nets.len()
        invariant
            i <= nets@.len(),
            all == text::strings(nets@),
            text::strings(out@) == streams_of(all.take(i as int), per as nat),
        decreases nets@.len() - i,
    {
        let ghost before = text::strings(out@);
        let ghost net = all[i as int];
        assert(net == nets@[i as int]@);
        let mut k: usize = 0;
        assert(text::strings(out@) =~= before + Seq::new(0, |j: int| net));
        while k < per
            invariant
                k <= per,
                i < nets@.len(),
                net == nets@[i as int]@,
                text::strings(out@) == before + Seq::new(k as nat, |j: int| net),
            decreases per - k,
        {
            let ghost prev = out@;
            out.push(nets[i].clone());
            assert(text::strings(out@) =~= text::strings(prev).push(net));
            k += 1;
            assert(text::strings(out@) =~= before + Seq::new(k as nat, |j: int| net));
        }
        assert(all.take(i + 1).drop_last() =~= all.take(i as int));
        i += 1;
    }
    assert(all.take(i as int) =~= all);
    out
}

proof fn lemma_idle_bound(streams: Seq<Seq<char>>)
    requires
        streams.len() <= usize::MAX,
    ensures
        forall|n: Seq<char>|
            #[trigger] all_idle(streams).dom().contains(n) ==> all_idle(streams)[n]
                <= streams.len(),
    decreases streams.len(),
{
    if streams.len() > 0 {
        let before = all_idle(streams.drop_last());
        lemma_idle_bound(streams.drop_last());
        assert forall|n: Seq<char>| #[trigger] all_idle(streams).dom().contains(n) implies all_idle(
            streams,
        )[n] <= streams.len() by {
            if before.dom().contains(n) {
                assert(before[n] <= streams.len() - 1);
            }
        }
    }
}

fn idle_of(streams: &Vec<String>) -> (r: Idle)
    ensures
        r.wf(),
        r@ == all_idle(text::strings(streams@)),
{
    let ghost all = text::strings(streams@);
    let mut r: Idle = Idle::new();
    let mut i: usize = 0;
    let n: usize = streams.len();
    assert(all.take(0) =~= Seq::<Seq<char>>::empty());
    while i < n
        invariant
            i <= n == streams@.len(),
            all == text::strings(streams@),
            r.wf(),
            r@ == all_idle(all.take(i as int)),
        decreases n - i,
    {
        proof {
            lemma_idle_bound(all.take(i as int));
            assert(all.take(i + 1).drop_last() =~= all.take(i as int));
            assert(all[i as int] == streams@[i as int]@);
        }
        match r.get(&streams[i]) {
            Some(c) => r.insert(streams[i].clone(), c + 1),
            None => r.insert(streams[i].clone(), 1),
        }
        i += 1;
    }
    assert(all.take(i as int) =~= all);
    r
}

impl Plan {
    /// The plan for a file of `size` bytes in blocks of `block`, of which those in `already` are
    /// there, with every stream free.
    pub fn new(size: u64, block: u64, already: &Vec<usize>, streams: &Vec<String>) -> (r: Self)
        requires
            block > 0,
            block_count(size, block) <= usize::MAX,
        ensures
            r.wf(),
            r@.blocks == layout(size, block, already@),
            r@.idle == all_idle(text::strings(streams@)),
            r@.speed == Map::<usize, Speed>::empty(),
    {
        let r: Plan = Plan {
            blocks: lay_out(size, block, already),
            idle_by_net: idle_of(streams),
            speed: HashMap::new(),
        };
        proof {
            assert forall|i: int| 0 <= i < r@.blocks.len() implies {
                let b = #[trigger] r@.blocks[i];
                b.index == i && b.start <= b.end && b.end - b.start < u64::MAX && (b.status
                    == Status::Done <==> b.got >= b.size())
            } by {
                lemma_layout_sound(size, block, already@, i);
                assert(r@.blocks[i] == nth_block(size, block, already@, i));
            }
        }
        r
    }
}

proof fn lemma_bytes_done(size: u64, block: u64, already: Seq<usize>, n: int)
    requires
        block > 0,
        block_count(size, block) <= usize::MAX,
        0 <= n <= block_count(size, block),
    ensures
        0 <= bytes_done(layout(size, block, already).take(n)) <= (if n * block <= size {
            n * block
        } else {
            size as int
        }),
    decreases n,
{
    let all = layout(size, block, already);
    if n == 0 {
        assert(0 * block == 0) by (nonlinear_arith);
    } else {
        lemma_bytes_done(size, block, already, n - 1);
        lemma_layout_sound(size, block, already, n - 1);
        lemma_block_bounds(size, block, n - 1);
        assert(all.take(n).drop_last() =~= all.take(n - 1));
        assert(all.take(n).last() == nth_block(size, block, already, n - 1));
    }
}

impl Plan {
    /// How many bytes a new plan finds there already.
    pub fn resumed(&self, size: u64, block: u64, already: &Vec<usize>) -> (r: u64)
        requires
            block > 0,
            block_count(size, block) <= usize::MAX,
            self@.blocks == layout(size, block, already@),
        ensures
            r == bytes_done(self@.blocks),
            r <= size,
    {
        let ghost all = self@.blocks;
        let mut sum: u64 = 0;
        let mut i: usize = 0;
        while i < self.blocks.len()
            invariant
                block > 0,
                block_count(size, block) <= usize::MAX,
                i <= self.blocks@.len() == all.len(),
                all == self@.blocks,
                all == layout(size, block, already@),
                sum == bytes_done(all.take(i as int)),
            decreases self.blocks@.len() - i,
        {
            proof {
                assert(all.take(i + 1).drop_last() =~= all.take(i as int));
                assert(all[i as int] == self.blocks@[i as int]@);
                lemma_layout_sound(size, block, already@, i as int);
                lemma_bytes_done(size, block, already@, i + 1);
            }
            if self.blocks[i].status == Status::Done {
                sum = sum + self.blocks[i].len();
            }
            i += 1;
        }
        proof {
            assert(all.take(i as int) =~= all);
            lemma_bytes_done(size, block, already@, all.len() as int);
        }
        sum
    }
}

// ---- laws -----------------------------------------------------------------------------------

/// The blocks cover the file and do not overlap: every byte of it is in exactly one of them.
pub proof fn law_blocks_cover_the_file(size: u64, block: u64, already: Seq<usize>, x: int)
    requires
        block > 0,
        block_count(size, block) <= usize::MAX,
        0 <= x < size,
    ensures
        ({
            let all = layout(size, block, already);
            let k = x / block as int;
            &&& 0 <= k < all.len()
            &&& all[k].start <= x <= all[k].end
            &&& forall|j: int|
                0 <= j < all.len() && (#[trigger] all[j]).start <= x <= all[j].end ==> j == k
        }),
{
    let all = layout(size, block, already);
    let k = x / block as int;
    vstd::arithmetic::div_mod::lemma_fundamental_div_mod(x, block as int);
    assert(k * block == block * k) by (nonlinear_arith);
    assert(k >= 0) by {
        vstd::arithmetic::div_mod::lemma_div_pos_is_pos(x, block as int);
    }
    assert(k < block_count(size, block)) by {
        vstd::arithmetic::div_mod::lemma_div_is_ordered(x + block, size + block - 1, block as int);
        vstd::arithmetic::div_mod::lemma_div_plus_one(x, block as int);
    }
    lemma_layout_sound(size, block, already, k);
    lemma_block_bounds(size, block, k);
    assert forall|j: int|
        0 <= j < all.len() && (#[trigger] all[j]).start <= x <= all[j].end implies j == k by {
        lemma_layout_sound(size, block, already, j);
        lemma_block_bounds(size, block, j);
        if j < k {
            assert((j + 1) * block <= k * block) by (nonlinear_arith)
                requires
                    j + 1 <= k,
                    block > 0,
            ;
        } else if j > k {
            assert(j * block >= (k + 1) * block) by (nonlinear_arith)
                requires
                    j >= k + 1,
                    block > 0,
            ;
        }
    }
}

/// A second attempt is never handed out while a block is waiting.
pub proof fn law_a_hedge_never_takes_from_waiting_work(
    p: PlanView,
    stream: usize,
    net: Seq<char>,
    now: u64,
)
    requires
        p.any_pending(),
    ensures
        !(p.work(stream, net, now) is Hedge),
{
}

/// A block is never stranded: while one is waiting, a stream of a network gets work unless every
/// waiting block is one that its network failed at and another network has a stream free.
pub proof fn law_a_block_is_never_stranded(
    p: PlanView,
    stream: usize,
    net: Seq<char>,
    now: u64,
    i: int,
)
    requires
        p.sound(),
        0 <= i < p.blocks.len(),
        p.blocks[i].status == Status::Pending,
        p.blocks[i].avoid != Some(net) || !other_free(p.idle, net),
    ensures
        p.work(stream, net, now) is Primary,
{
    lemma_waiting(p, net, 0);
    assert(p.takes(p.blocks[i], net));
}

/// A stream is given the first waiting block that it may take.
pub proof fn law_the_first_waiting_block_goes_first(
    p: PlanView,
    stream: usize,
    net: Seq<char>,
    now: u64,
)
    requires
        p.sound(),
    ensures
        match p.work(stream, net, now) {
            Work::Primary(i) => i < p.blocks.len() && p.takes(p.blocks[i as int], net) && forall|
                j: int,
            |
                0 <= j < i ==> !p.takes(#[trigger] p.blocks[j], net),
            _ => forall|j: int| 0 <= j < p.blocks.len() ==> !p.takes(#[trigger] p.blocks[j], net),
        },
{
    lemma_waiting(p, net, 0);
}

proof fn lemma_not_later_trans(a: Eta, b: Eta, c: Eta)
    requires
        !later(a, b),
        !later(b, c),
        a matches Eta::After { num: _, den } ==> den > 0,
        b matches Eta::After { num: _, den } ==> den > 0,
        c matches Eta::After { num: _, den } ==> den > 0,
    ensures
        !later(a, c),
{
    if let Eta::After { num: an, den: ad } = a {
        if let Eta::After { num: bn, den: bd } = b {
            if let Eta::After { num: cn, den: cd } = c {
                assert(an * cd <= cn * ad) by (nonlinear_arith)
                    requires
                        an * bd <= bn * ad,
                        bn * cd <= cn * bd,
                        ad > 0,
                        bd > 0,
                        cd > 0,
                {
                    assert((an * bd) * cd <= (bn * ad) * cd);
                    assert((bn * cd) * ad <= (cn * bd) * ad);
                    assert((an * cd) * bd <= (cn * ad) * bd);
                }
            }
        }
    }
}

proof fn lemma_slowest_is_last(
    p: PlanView,
    stream: usize,
    net: Seq<char>,
    now: u64,
    n: nat,
    j: int,
)
    requires
        n <= p.blocks.len(),
        0 <= j < n,
        p.hedgeable(p.blocks[j], stream, net, now),
    ensures
        p.slowest_upto(stream, net, now, n) is Some,
        !later(
            p.holder_eta(p.blocks[j]),
            p.holder_eta(p.blocks[p.slowest_upto(stream, net, now, n)->0]),
        ),
    decreases n,
{
    let m = (n - 1) as nat;
    let best = p.slowest_upto(stream, net, now, m);
    lemma_slowest(p, stream, net, now, m);
    if j < m {
        lemma_slowest_is_last(p, stream, net, now, m, j);
        let b = p.blocks[n - 1];
        if p.hedgeable(b, stream, net, now) && later(
            p.holder_eta(b),
            p.holder_eta(p.blocks[best->0]),
        ) {
            lemma_later_asymmetric(p.holder_eta(b), p.holder_eta(p.blocks[best->0]));
            lemma_not_later_trans(
                p.holder_eta(p.blocks[j]),
                p.holder_eta(p.blocks[best->0]),
                p.holder_eta(b),
            );
        }
    }
}

proof fn lemma_later_asymmetric(a: Eta, b: Eta)
    requires
        later(a, b),
    ensures
        !later(b, a),
{
}

/// A hedge keeps to its rules: the block is held by one other stream, which has been at it for
/// eight seconds and will need at least as long again, it has been hedged less than twice, and its
/// network has not failed at it. Of all such blocks it is one whose holder will be longest yet.
pub proof fn law_a_hedge_is_worth_it(p: PlanView, stream: usize, net: Seq<char>, now: u64)
    requires
        p.sound(),
    ensures
        match p.work(stream, net, now) {
            Work::Hedge(i) => i < p.blocks.len() && p.hedgeable(
                p.blocks[i as int],
                stream,
                net,
                now,
            ) && forall|j: int|
                0 <= j < p.blocks.len() && p.hedgeable(#[trigger] p.blocks[j], stream, net, now)
                    ==> !later(p.holder_eta(p.blocks[j]), p.holder_eta(p.blocks[i as int])),
            _ => true,
        },
{
    lemma_work(p, stream, net, now);
    if let Work::Hedge(i) = p.work(stream, net, now) {
        let n = p.blocks.len();
        lemma_slowest(p, stream, net, now, n);
        let k = p.slowest_upto(stream, net, now, n)->0;
        assert(p.blocks[k].index == k);
        assert forall|j: int|
            0 <= j < p.blocks.len() && p.hedgeable(
                #[trigger] p.blocks[j],
                stream,
                net,
                now,
            ) implies !later(p.holder_eta(p.blocks[j]), p.holder_eta(p.blocks[i as int])) by {
            lemma_slowest_is_last(p, stream, net, now, n, j);
        }
    }
}

/// No block has been hedged more often than the bound.
pub open spec fn hedges_bounded(p: PlanView) -> bool {
    forall|i: int|
        0 <= i < p.blocks.len() ==> (#[trigger] p.blocks[i]).hedges <= MAX_HEDGES_PER_BLOCK
}

/// The duplicate work on a block stays bounded: neither taking work nor settling it ever takes a
/// block over the bound on hedges.
pub proof fn law_hedges_stay_bounded(
    p: PlanView,
    stream: usize,
    net: Seq<char>,
    now: u64,
    job: Job,
    got: Result<u64, Seq<char>>,
)
    requires
        p.sound(),
        hedges_bounded(p),
        p.handed_out(job),
    ensures
        hedges_bounded(p.taken(stream, net, now)),
        hedges_bounded(p.settled(job, stream, net, got)),
{
    lemma_work(p, stream, net, now);
}

/// What is done stays done: no block that is there is ever handed out again or forgotten.
pub proof fn law_what_is_done_stays_done(
    p: PlanView,
    stream: usize,
    net: Seq<char>,
    now: u64,
    job: Job,
    got: Result<u64, Seq<char>>,
    j: int,
)
    requires
        p.sound(),
        p.handed_out(job),
        0 <= j < p.blocks.len(),
        p.blocks[j].status == Status::Done,
    ensures
        p.taken(stream, net, now).blocks[j].status == Status::Done,
        p.settled(job, stream, net, got).blocks[j].status == Status::Done,
        p.job(stream, net, now) is Some ==> p.job(stream, net, now)->0.index != j,
{
    lemma_work(p, stream, net, now);
}

/// What a stream is told to fetch is the missing end of its block, and never empty.
pub proof fn law_a_job_is_the_rest_of_its_block(p: PlanView, stream: usize, net: Seq<char>, now: u64)
    requires
        p.sound(),
    ensures
        match p.job(stream, net, now) {
            Some(job) => {
                let b = p.blocks[job.index as int];
                &&& job.index < p.blocks.len()
                &&& job.start == b.start + b.got
                &&& job.start <= job.end == b.end
            },
            None => true,
        },
{
    lemma_work(p, stream, net, now);
}

/// A partial answer is continued where it stopped: the next stream is told to fetch from the byte
/// after the last one of an unbroken run from the start of the block, whichever attempt brought it,
/// and the block waits for a stream once no attempt at it is left.
pub proof fn law_a_partial_answer_is_continued(
    p: PlanView,
    job: Job,
    stream: usize,
    net: Seq<char>,
    n: u64,
)
    requires
        p.sound(),
        p.handed_out(job),
        p.blocks[job.index as int].status != Status::Done,
        job.start + n <= p.blocks[job.index as int].end,
    ensures
        ({
            let q = p.settled(job, stream, net, Ok(n));
            let had = p.rest_of(job.index).start as int;
            &&& q.rest_of(job.index).start == if job.start + n > had {
                job.start + n
            } else {
                had
            }
            &&& q.rest_of(job.index).end == p.blocks[job.index as int].end
            &&& of_others(p.blocks[job.index as int].attempts, stream).len() == 0
                ==> q.blocks[job.index as int].status == Status::Pending
        }),
{
}

/// The download is stopped by a block exactly when an attempt at it delivers nothing, be it that it
/// fails or that it just ends, and attempts at it have come back empty as often as is allowed; a
/// block that delivered anything adds nothing to that.
pub proof fn law_when_the_download_gives_up(
    p: PlanView,
    job: Job,
    stream: usize,
    net: Seq<char>,
    got: Result<u64, Seq<char>>,
)
    requires
        p.sound(),
        p.handed_out(job),
        p.blocks[job.index as int].fails < MAX_ATTEMPTS_PER_BLOCK,
    ensures
        ({
            let b = p.blocks[job.index as int];
            &&& p.settled(job, stream, net, got).blocks[job.index as int].fails == b.fails + (
            if empty_handed(b, got) {
                1int
            } else {
                0
            })
            &&& (p.verdict(job, stream, net, got) is GiveUp) == (empty_handed(b, got) && b.fails + 1
                == MAX_ATTEMPTS_PER_BLOCK)
        }),
{
}

// ---- a whole download -----------------------------------------------------------------------

/// What happens in the course of a download.
pub enum Happening {
    /// A free stream of `net` asks for work.
    Asked { stream: usize, net: Seq<char>, now: u64 },
    /// A stream comes back from the job that it was given.
    Came { stream: usize, net: Seq<char>, job: Job, got: Result<u64, Seq<char>> },
    /// The speed of a stream was measured.
    Timed { stream: usize, speed: Speed },
}

/// How far a download has come.
pub struct Course {
    pub plan: PlanView,
    /// The jobs that are being worked on, and the streams that work on them.
    pub out: Set<(usize, Job)>,
    /// The bytes that were answered, in this run or before it.
    pub answered: Set<int>,
}

/// The bytes that came: so many from the start of the job on.
pub open spec fn bytes_of(job: Job, got: Result<u64, Seq<char>>) -> Set<int> {
    Set::new(
        |x: int|
            match got {
                Ok(n) => job.start <= x < job.start + n,
                Err(_) => false,
            },
    )
}

impl Course {
    pub open spec fn after(self, h: Happening) -> Course {
        match h {
            Happening::Asked { stream, net, now } => match self.plan.job(stream, net, now) {
                Some(job) => Course {
                    plan: self.plan.taken(stream, net, now),
                    out: self.out.insert((stream, job)),
                    ..self
                },
                None => self,
            },
            // nobody comes back from a job that was not given
            Happening::Came { stream, net, job, got } => if self.out.contains((stream, job)) {
                Course {
                    plan: self.plan.settled(job, stream, net, got),
                    out: self.out.remove((stream, job)),
                    answered: self.answered.union(bytes_of(job, got)),
                }
            } else {
                self
            },
            Happening::Timed { stream, speed } => Course {
                plan: PlanView { speed: self.plan.speed.insert(stream, speed), ..self.plan },
                ..self
            },
        }
    }

    /// After all of these, one after the other.
    pub open spec fn after_all(self, hs: Seq<Happening>) -> Course
        decreases hs.len(),
    {
        if hs.len() == 0 {
            self
        } else {
            self.after_all(hs.drop_last()).after(hs.last())
        }
    }
}

/// Every byte of the block that counts as there was answered.
pub open spec fn backed(b: BlockView, answered: Set<int>) -> bool {
    forall|x: int| b.start <= x < b.start + b.got && x <= b.end ==> #[trigger] answered.contains(x)
}

/// Every byte that counts as there was answered.
pub open spec fn all_backed(p: PlanView, answered: Set<int>) -> bool {
    forall|i: int| 0 <= i < p.blocks.len() ==> backed(#[trigger] p.blocks[i], answered)
}

/// Settling a job counts no byte that was not answered: what was answered before and what the job
/// brought cover all that counts as there, also where a holder and its hedge answered the same bytes.
pub proof fn law_what_counts_as_there_was_answered(
    p: PlanView,
    job: Job,
    stream: usize,
    net: Seq<char>,
    got: Result<u64, Seq<char>>,
    answered: Set<int>,
)
    requires
        p.sound(),
        p.handed_out(job),
        all_backed(p, answered),
    ensures
        all_backed(p.settled(job, stream, net, got), answered.union(bytes_of(job, got))),
{
    let q = p.settled(job, stream, net, got);
    let more = answered.union(bytes_of(job, got));
    let i = job.index as int;
    assert forall|j: int| 0 <= j < q.blocks.len() implies backed(#[trigger] q.blocks[j], more) by {
        let b = p.blocks[j];
        assert(backed(b, answered));
        assert forall|x: int|
            q.blocks[j].start <= x < q.blocks[j].start + q.blocks[j].got && x
                <= q.blocks[j].end implies #[trigger] more.contains(x) by {
            if x < b.start + b.got {
                assert(answered.contains(x));
            } else {
                assert(j == i);
                assert(bytes_of(job, got).contains(x));
            }
        }
    }
}

/// Two plans for the same blocks.
spec fn same_blocks(p: PlanView, q: PlanView) -> bool {
    p.blocks.len() == q.blocks.len() && forall|i: int|
        0 <= i < p.blocks.len() ==> (#[trigger] p.blocks[i]).start == q.blocks[i].start
            && p.blocks[i].end == q.blocks[i].end
}

/// What holds all along.
spec fn in_order(c: Course, first: PlanView) -> bool {
    &&& c.plan.sound()
    &&& same_blocks(c.plan, first)
    &&& forall|stream: usize, job: Job|
        #[trigger] c.out.contains((stream, job)) ==> c.plan.handed_out(job)
    &&& all_backed(c.plan, c.answered)
}

proof fn lemma_taken_order(c: Course, first: PlanView, stream: usize, net: Seq<char>, now: u64)
    requires
        in_order(c, first),
    ensures
        in_order(c.after(Happening::Asked { stream, net, now }), first),
{
    let p = c.plan;
    lemma_work(p, stream, net, now);
    let d = c.after(Happening::Asked { stream, net, now });
    let q = d.plan;
    if let Some(job) = p.job(stream, net, now) {
        law_a_job_is_the_rest_of_its_block(p, stream, net, now);
        assert forall|j: int| 0 <= j < q.blocks.len() implies {
            let x = #[trigger] q.blocks[j];
            x.index == j && x.start <= x.end && x.end - x.start < u64::MAX && (x.status
                == Status::Done <==> x.got >= x.size())
        } by {
            assert(p.blocks[j].index == j);
            assert(q.blocks[j].size() == p.blocks[j].size());
        }
        assert forall|s: usize, o: Job| #[trigger] d.out.contains((s, o)) implies q.handed_out(o) by {
            if (s, o) != (stream, job) {
                assert(c.out.contains((s, o)));
                assert(p.handed_out(o));
            }
        }
        assert forall|j: int| 0 <= j < q.blocks.len() implies backed(
            #[trigger] q.blocks[j],
            c.answered,
        ) by {
            assert(backed(p.blocks[j], c.answered));
        }
    }
}

proof fn lemma_settled_order(
    c: Course,
    first: PlanView,
    stream: usize,
    net: Seq<char>,
    job: Job,
    got: Result<u64, Seq<char>>,
)
    requires
        in_order(c, first),
    ensures
        in_order(c.after(Happening::Came { stream, net, job, got }), first),
{
    let p = c.plan;
    if c.out.contains((stream, job)) {
        let d = c.after(Happening::Came { stream, net, job, got });
        assert(p.handed_out(job));
        lemma_settled_sound(p, job, stream, net, got);
        law_what_counts_as_there_was_answered(p, job, stream, net, got, c.answered);
        assert forall|s: usize, o: Job| #[trigger] d.out.contains((s, o)) implies d.plan.handed_out(
            o,
        ) by {
            assert(c.out.contains((s, o)));
            assert(p.handed_out(o));
            assert(d.plan.blocks[o.index as int].got >= p.blocks[o.index as int].got);
        }
    }
}

proof fn lemma_order(c: Course, first: PlanView, hs: Seq<Happening>)
    requires
        in_order(c, first),
    ensures
        in_order(c.after_all(hs), first),
    decreases hs.len(),
{
    if hs.len() > 0 {
        lemma_order(c, first, hs.drop_last());
        let d = c.after_all(hs.drop_last());
        match hs.last() {
            Happening::Asked { stream, net, now } => {
                lemma_taken_order(d, first, stream, net, now);
            },
            Happening::Came { stream, net, job, got } => {
                lemma_settled_order(d, first, stream, net, job, got);
            },
            Happening::Timed { stream, speed } => {
                let q = d.after(hs.last()).plan;
                assert(q.blocks == d.plan.blocks);
                assert forall|s: usize, o: Job| #[trigger] d.out.contains((s, o)) implies q.handed_out(
                    o,
                ) by {
                    assert(d.plan.handed_out(o));
                }
            },
        }
    }
}

/// The beginning of a download of `size` bytes in blocks of `block`: the blocks in `already` are
/// there, and `held` are the bytes that an earlier run was answered.
pub open spec fn outset(
    size: u64,
    block: u64,
    already: Seq<usize>,
    idle: Map<Seq<char>, usize>,
    held: Set<int>,
) -> Course {
    Course {
        plan: PlanView {
            blocks: layout(size, block, already),
            idle,
            speed: Map::<usize, Speed>::empty(),
        },
        out: Set::empty(),
        answered: held,
    }
}

/// Every byte of the blocks in `already` is among `held`.
pub open spec fn stands_for(size: u64, block: u64, already: Seq<usize>, held: Set<int>) -> bool {
    forall|x: int|
        0 <= x < size && already.contains((x / block as int) as usize) ==> #[trigger] held.contains(x)
}

proof fn lemma_outset(
    size: u64,
    block: u64,
    already: Seq<usize>,
    idle: Map<Seq<char>, usize>,
    held: Set<int>,
)
    requires
        block > 0,
        block_count(size, block) <= usize::MAX,
        stands_for(size, block, already, held),
    ensures
        in_order(
            outset(size, block, already, idle, held),
            outset(size, block, already, idle, held).plan,
        ),
{
    let c = outset(size, block, already, idle, held);
    let p = c.plan;
    assert forall|i: int| 0 <= i < p.blocks.len() implies {
        let b = #[trigger] p.blocks[i];
        b.index == i && b.start <= b.end && b.end - b.start < u64::MAX && (b.status == Status::Done
            <==> b.got >= b.size())
    } by {
        lemma_layout_sound(size, block, already, i);
        assert(p.blocks[i] == nth_block(size, block, already, i));
    }
    assert forall|i: int| 0 <= i < p.blocks.len() implies backed(#[trigger] p.blocks[i], held) by {
        lemma_layout_sound(size, block, already, i);
        let b = p.blocks[i];
        assert(b == nth_block(size, block, already, i));
        assert forall|x: int| b.start <= x < b.start + b.got && x <= b.end implies #[trigger] held.contains(
            x,
        ) by {
            law_blocks_cover_the_file(size, block, already, x);
            assert(p.blocks[i].start <= x <= p.blocks[i].end);
            assert(i == x / block as int);
        }
    }
}

/// A finished download holds every byte of the file. Whatever the streams did, in whichever order they
/// came back and however much each of them brought, once the plan is complete every byte was answered
/// by some attempt, in this run or in the one whose record it went on from.
pub proof fn law_a_finished_download_is_whole(
    size: u64,
    block: u64,
    already: Seq<usize>,
    idle: Map<Seq<char>, usize>,
    held: Set<int>,
    hs: Seq<Happening>,
    x: int,
)
    requires
        block > 0,
        block_count(size, block) <= usize::MAX,
        stands_for(size, block, already, held),
        outset(size, block, already, idle, held).after_all(hs).plan.complete(),
        0 <= x < size,
    ensures
        outset(size, block, already, idle, held).after_all(hs).answered.contains(x),
{
    let first = outset(size, block, already, idle, held);
    let c = first.after_all(hs);
    lemma_outset(size, block, already, idle, held);
    lemma_order(first, first.plan, hs);
    law_blocks_cover_the_file(size, block, already, x);
    let k = x / block as int;
    let b = c.plan.blocks[k];
    assert(b.start == first.plan.blocks[k].start && b.end == first.plan.blocks[k].end);
    assert(b.status == Status::Done);
    assert(backed(b, c.answered));
}

/// What is on record stands for bytes that were answered, at any time in the course of a download: so
/// a run that goes on from the record of another, with blocks of the same size, lacks nothing either.
pub proof fn law_the_record_stands_for_what_was_answered(
    size: u64,
    block: u64,
    already: Seq<usize>,
    idle: Map<Seq<char>, usize>,
    held: Set<int>,
    hs: Seq<Happening>,
)
    requires
        block > 0,
        block_count(size, block) <= usize::MAX,
        stands_for(size, block, already, held),
    ensures
        ({
            let c = outset(size, block, already, idle, held).after_all(hs);
            stands_for(size, block, done_list(c.plan.blocks), c.answered)
        }),
{
    let first = outset(size, block, already, idle, held);
    let c = first.after_all(hs);
    lemma_outset(size, block, already, idle, held);
    lemma_order(first, first.plan, hs);
    let done = done_list(c.plan.blocks);
    assert forall|x: int|
        0 <= x < size && done.contains((x / block as int) as usize) implies #[trigger] c.answered.contains(
        x,
    ) by {
        law_blocks_cover_the_file(size, block, already, x);
        let k = x / block as int;
        law_the_record_lists_what_is_done(c.plan.blocks, k as usize);
        let i = choose|i: int|
            0 <= i < c.plan.blocks.len() && (#[trigger] c.plan.blocks[i]).status == Status::Done
                && c.plan.blocks[i].index == k as usize;
        assert(i == k);
        let b = c.plan.blocks[k];
        assert(b.start == first.plan.blocks[k].start && b.end == first.plan.blocks[k].end);
        assert(backed(b, c.answered));
    }
}

/// What is put on record is exactly what is done.
pub proof fn law_the_record_lists_what_is_done(blocks: Seq<BlockView>, x: usize)
    ensures
        done_list(blocks).contains(x) <==> exists|i: int|
            0 <= i < blocks.len() && (#[trigger] blocks[i]).status == Status::Done
                && blocks[i].index == x,
    decreases blocks.len(),
{
    if blocks.len() > 0 {
        let w = blocks.drop_last();
        law_the_record_lists_what_is_done(w, x);
        let d = done_list(w);
        if blocks.last().status == Status::Done {
            assert(d.push(blocks.last().index).last() == blocks.last().index);
            assert forall|k: int| 0 <= k < d.len() implies d.push(blocks.last().index)[k]
                == #[trigger] d[k] by {}
            if d.contains(x) {
                let k = choose|k: int| 0 <= k < d.len() && d[k] == x;
                assert(d.push(blocks.last().index)[k] == x);
            }
            if d.push(blocks.last().index).contains(x) {
                let k = choose|k: int|
                    0 <= k < d.push(blocks.last().index).len() && d.push(blocks.last().index)[k]
                        == x;
                if k < d.len() {
                    assert(d[k] == x);
                }
            }
            assert(blocks[blocks.len() - 1].status == Status::Done);
        }
        if exists|i: int|
            0 <= i < w.len() && (#[trigger] w[i]).status == Status::Done && w[i].index == x {
            let k = choose|i: int|
                0 <= i < w.len() && (#[trigger] w[i]).status == Status::Done && w[i].index == x;
            assert(blocks[k] == w[k]);
        }
        if exists|i: int|
            0 <= i < blocks.len() && (#[trigger] blocks[i]).status == Status::Done
                && blocks[i].index == x {
            let k = choose|i: int|
                0 <= i < blocks.len() && (#[trigger] blocks[i]).status == Status::Done
                    && blocks[i].index == x;
            if k < w.len() {
                assert(blocks[k] == w[k]);
            }
        }
    }
}

// ---- who gets what, in full -----------------------------------------------------------------

/// A block waits for a stream of this network: it is not being fetched, and the network is not the one
/// that last brought nothing of it, unless no stream of any other network is free.
pub open spec fn waits_for(p: PlanView, b: BlockView, net: Seq<char>) -> bool {
    &&& b.status is Pending
    &&& b.avoid != Some(net) || forall|n: Seq<char>|
        #[trigger] p.idle.dom().contains(n) && n != net ==> p.idle[n] == 0
}

/// Nothing says that a stream will bring so many bytes within eight seconds: its speed is not known, it
/// has gone quiet, or it is too slow for that.
pub open spec fn too_slow(p: PlanView, stream: usize, bytes: int) -> bool {
    ||| !p.speed.dom().contains(stream)
    ||| p.speed[stream].bytes * 1000 <= p.speed[stream].ms
    ||| bytes * p.speed[stream].ms >= 8000 * p.speed[stream].bytes
}

/// A second stream may fetch what is left of a block: one other stream has been at it for eight seconds
/// or more and is too slow, it was not done twice before, and the second stream is of a network that can
/// help.
pub open spec fn may_be_helped(
    p: PlanView,
    b: BlockView,
    stream: usize,
    net: Seq<char>,
    now: u64,
) -> bool {
    &&& b.status is Running
    &&& b.attempts.len() == 1
    &&& b.attempts[0].0 != stream
    &&& b.hedges < 2
    &&& b.avoid != Some(net)
    &&& now >= b.attempts[0].2 + 8000
    &&& b.got <= b.end - b.start
    &&& too_slow(p, b.attempts[0].0, b.end - b.start + 1 - b.got)
    &&& b.attempts[0].1 != net || forall|n: Seq<char>|
        #[trigger] p.idle.dom().contains(n) && n != net && b.avoid != Some(n) ==> p.idle[n] == 0
}

proof fn lemma_waits(p: PlanView, b: BlockView, net: Seq<char>)
    ensures
        waits_for(p, b, net) <==> p.takes(b, net),
{
    if other_free(p.idle, net) {
        let n = choose|n: Seq<char>|
            #[trigger] p.idle.dom().contains(n) && n != net && p.idle[n] > 0;
        assert(p.idle.dom().contains(n) && p.idle[n] != 0);
    } else {
        assert forall|n: Seq<char>| #[trigger] p.idle.dom().contains(n) && n != net implies p.idle[n]
            == 0 by {}
    }
}

proof fn lemma_helped(p: PlanView, b: BlockView, stream: usize, net: Seq<char>, now: u64)
    requires
        b.start <= b.end,
    ensures
        may_be_helped(p, b, stream, net, now) <==> p.hedgeable(b, stream, net, now),
{
    if b.attempts.len() == 1 {
        let holder = b.attempts[0].1;
        if third_free(p.idle, holder, b.avoid) {
            let n = choose|n: Seq<char>|
                #[trigger] p.idle.dom().contains(n) && n != holder && p.idle[n] > 0 && b.avoid != Some(n);
            assert(p.idle.dom().contains(n) && p.idle[n] != 0);
        } else {
            assert forall|n: Seq<char>|
                #[trigger] p.idle.dom().contains(n) && n != holder && b.avoid != Some(
                    n,
                ) implies p.idle[n] == 0 by {}
        }
        let s = b.attempts[0].0;
        let m = b.end - b.start + 1 - b.got;
        if m > 0 {
            assert(b.missing() == m);
            if p.speed.dom().contains(s) {
                let k = p.speed[s];
                assert(m * k.ms >= 0) by (nonlinear_arith)
                    requires
                        m > 0,
                        k.ms >= 0,
                ;
                assert(HEDGE_AFTER_MS * k.bytes == 8000 * k.bytes);
            }
        }
    }
}

proof fn lemma_none_slow(p: PlanView, stream: usize, net: Seq<char>, now: u64, n: nat)
    requires
        n <= p.blocks.len(),
    ensures
        p.slowest_upto(stream, net, now, n) is None ==> forall|j: int|
            0 <= j < n ==> !p.hedgeable(#[trigger] p.blocks[j], stream, net, now),
    decreases n,
{
    if n > 0 {
        lemma_none_slow(p, stream, net, now, (n - 1) as nat);
    }
}

/// A free stream gets the first block that waits for it. Only when no block waits for anyone does it help
/// with one, and it does so whenever there is one that may be helped. Otherwise it gets nothing.
pub proof fn law_who_gets_what(p: PlanView, stream: usize, net: Seq<char>, now: u64)
    requires
        p.sound(),
    ensures
        match p.work(stream, net, now) {
            Work::Primary(i) => i < p.blocks.len() && waits_for(p, p.blocks[i as int], net) && forall|j: int|
                0 <= j < i ==> !waits_for(p, #[trigger] p.blocks[j], net),
            Work::Hedge(i) => i < p.blocks.len() && may_be_helped(p, p.blocks[i as int], stream, net, now)
                && forall|j: int| 0 <= j < p.blocks.len() ==> !((#[trigger] p.blocks[j]).status is Pending),
            Work::Nothing => (forall|j: int|
                0 <= j < p.blocks.len() ==> !waits_for(p, #[trigger] p.blocks[j], net)) && ((exists|j: int|
                0 <= j < p.blocks.len() && (#[trigger] p.blocks[j]).status is Pending) || (forall|j: int|
                0 <= j < p.blocks.len() ==> !may_be_helped(
                    p,
                    #[trigger] p.blocks[j],
                    stream,
                    net,
                    now,
                ))),
        },
{
    law_the_first_waiting_block_goes_first(p, stream, net, now);
    law_a_hedge_is_worth_it(p, stream, net, now);
    lemma_none_slow(p, stream, net, now, p.blocks.len());
    assert forall|j: int| 0 <= j < p.blocks.len() implies waits_for(p, #[trigger] p.blocks[j], net)
        == p.takes(p.blocks[j], net) by {
        lemma_waits(p, p.blocks[j], net);
    }
    assert forall|j: int| 0 <= j < p.blocks.len() implies may_be_helped(
        p,
        #[trigger] p.blocks[j],
        stream,
        net,
        now,
    ) == p.hedgeable(p.blocks[j], stream, net, now) by {
        lemma_helped(p, p.blocks[j], stream, net, now);
    }
    if p.any_pending() {
        law_a_hedge_never_takes_from_waiting_work(p, stream, net, now);
        let j = choose|j: int|
            0 <= j < p.blocks.len() && #[trigger] p.blocks[j].status == Status::Pending;
        assert(p.blocks[j].status is Pending);
    } else {
        assert forall|j: int| 0 <= j < p.blocks.len() implies !((#[trigger] p.blocks[j]).status
            is Pending) by {}
    }
}

/// The block that is helped is the one that would be there last: none that may be helped has a holder that
/// is quiet while this one's is not, and none would take longer at the speed of its holder.
pub proof fn law_the_last_block_is_helped_first(
    p: PlanView,
    stream: usize,
    net: Seq<char>,
    now: u64,
    j: int,
)
    requires
        p.sound(),
        p.work(stream, net, now) is Hedge,
        0 <= j < p.blocks.len(),
        may_be_helped(p, p.blocks[j], stream, net, now),
    ensures
        ({
            let a = p.blocks[p.work(stream, net, now)->Hedge_0 as int];
            let b = p.blocks[j];
            let x = p.speed[a.attempts[0].0];
            let y = p.speed[b.attempts[0].0];
            let a_known = p.speed.dom().contains(a.attempts[0].0) && x.bytes * 1000 > x.ms;
            let b_known = p.speed.dom().contains(b.attempts[0].0) && y.bytes * 1000 > y.ms;
            &&& a_known ==> b_known
            &&& a_known ==> (b.missing() * y.ms) * x.bytes <= (a.missing() * x.ms) * y.bytes
        }),
{
    law_a_hedge_is_worth_it(p, stream, net, now);
    lemma_helped(p, p.blocks[j], stream, net, now);
    let a = p.blocks[p.work(stream, net, now)->Hedge_0 as int];
    let b = p.blocks[j];
    let x = p.speed[a.attempts[0].0];
    let y = p.speed[b.attempts[0].0];
    assert(!later(p.holder_eta(b), p.holder_eta(a)));
    assert(b.missing() * y.ms >= 0) by (nonlinear_arith)
        requires
            b.missing() >= 0,
            y.ms >= 0,
    ;
    assert(a.missing() * x.ms >= 0) by (nonlinear_arith)
        requires
            a.missing() >= 0,
            x.ms >= 0,
    ;
}

/// What taking work changes: the block that was given is being fetched by one more stream, which is
/// counted as help only when it is, one stream fewer of the network is free, and nothing else changes.
pub proof fn law_what_taking_work_changes(p: PlanView, stream: usize, net: Seq<char>, now: u64, j: int)
    requires
        p.sound(),
        0 <= j < p.blocks.len(),
    ensures
        ({
            let q = p.taken(stream, net, now);
            let w = p.work(stream, net, now);
            let mine = (w is Primary && w->Primary_0 == j) || (w is Hedge && w->Hedge_0 == j);
            &&& q.blocks.len() == p.blocks.len()
            &&& q.speed == p.speed
            &&& !mine ==> q.blocks[j] == p.blocks[j]
            &&& mine ==> q.blocks[j].status is Running && q.blocks[j].attempts
                == p.blocks[j].attempts.push((stream, net, now)) && q.blocks[j].got == p.blocks[j].got
                && q.blocks[j].start == p.blocks[j].start && q.blocks[j].end == p.blocks[j].end
            &&& mine && w is Primary ==> q.blocks[j].hedges == p.blocks[j].hedges
            &&& mine && w is Hedge ==> q.blocks[j].hedges == p.blocks[j].hedges + 1
            &&& w is Nothing ==> q == p
            &&& !(w is Nothing) && p.idle.dom().contains(net) && p.idle[net] > 0 ==> q.idle
                == p.idle.insert(net, (p.idle[net] - 1) as usize)
        }),
{
    law_the_first_waiting_block_goes_first(p, stream, net, now);
    law_a_hedge_is_worth_it(p, stream, net, now);
}

/// What a stream that comes back changes. The block has what it had or what the answer reaches up to,
/// whichever is more, and never more than its size; it is done exactly when that is all of it. Only an
/// attempt that brought nothing of a block of which nothing is there counts as failed, and only then is
/// the network to be avoided for it. A block that nobody else fetches waits again. Every other block stays
/// as it is.
pub proof fn law_what_coming_back_changes(
    p: PlanView,
    job: Job,
    stream: usize,
    net: Seq<char>,
    got: Result<u64, Seq<char>>,
    j: int,
)
    requires
        p.sound(),
        p.handed_out(job),
        0 <= j < p.blocks.len(),
        p.blocks[job.index as int].fails < u32::MAX,
    ensures
        ({
            let q = p.settled(job, stream, net, got);
            let b = p.blocks[job.index as int];
            let c = q.blocks[job.index as int];
            let size = b.end - b.start + 1;
            let n = if got is Ok {
                got->Ok_0 as int
            } else {
                0
            };
            let reached = if job.start + n - b.start < size {
                job.start + n - b.start
            } else {
                size
            };
            let nothing = b.got == 0 && n == 0;
            &&& j != job.index ==> q.blocks[j] == p.blocks[j]
            &&& c.start == b.start && c.end == b.end && c.index == b.index && c.hedges == b.hedges
            &&& b.status is Done ==> c.status is Done && c.got == b.got && c.fails == b.fails
            &&& !(b.status is Done) ==> c.got == (if reached > b.got {
                reached
            } else {
                b.got as int
            })
            &&& !(b.status is Done) ==> (c.status is Done <==> c.got == size)
            &&& !(b.status is Done) && nothing ==> c.fails == b.fails + 1 && c.avoid == Some(net)
            &&& !(b.status is Done) && !nothing ==> c.fails == b.fails && c.avoid == b.avoid
            &&& !(c.status is Done) && (forall|i: int|
                0 <= i < b.attempts.len() ==> (#[trigger] b.attempts[i]).0 == stream) ==> c.status
                is Pending
            &&& p.idle.dom().contains(net) && p.idle[net] < usize::MAX ==> q.idle == p.idle.insert(
                net,
                (p.idle[net] + 1) as usize,
            )
        }),
{
    let b = p.blocks[job.index as int];
    assert(b.start <= b.end);
    if forall|i: int| 0 <= i < b.attempts.len() ==> (#[trigger] b.attempts[i]).0 == stream {
        lemma_none_of_others(b.attempts, stream);
    }
}

proof fn lemma_none_of_others(a: Seq<(usize, Seq<char>, u64)>, stream: usize)
    requires
        forall|i: int| 0 <= i < a.len() ==> (#[trigger] a[i]).0 == stream,
    ensures
        of_others(a, stream).len() == 0,
    decreases a.len(),
{
    if a.len() > 0 {
        assert(a[a.len() - 1].0 == stream);
        assert forall|i: int| 0 <= i < a.drop_last().len() implies (#[trigger] a.drop_last()[i]).0
            == stream by {
            assert(a.drop_last()[i] == a[i]);
        }
        lemma_none_of_others(a.drop_last(), stream);
    }
}

/// The download gives up on the fifth attempt at a block that brought nothing, and never before.
pub proof fn law_five_empty_attempts_are_enough(
    p: PlanView,
    job: Job,
    stream: usize,
    net: Seq<char>,
    got: Result<u64, Seq<char>>,
)
    requires
        p.sound(),
        p.handed_out(job),
        p.blocks[job.index as int].fails < 5,
    ensures
        ({
            let b = p.blocks[job.index as int];
            let nothing = b.got == 0 && (got is Err || got->Ok_0 == 0);
            let verdict = p.verdict(job, stream, net, got);
            &&& verdict is GiveUp <==> !(b.status is Done) && nothing && b.fails == 4
            &&& verdict is Saved <==> !(b.status is Done) && p.settled(
                job,
                stream,
                net,
                got,
            ).blocks[job.index as int].status is Done
        }),
{
    law_when_the_download_gives_up(p, job, stream, net, got);
}

/// The blocks of a file lie one behind the other, all of the same size but the last, which ends where the
/// file ends; the ones that are on record are there in full and the others wait.
pub proof fn law_how_a_file_is_cut(size: u64, block: u64, already: Seq<usize>, i: int)
    requires
        block > 0,
        size > 0,
        block_count(size, block) <= usize::MAX,
        0 <= i < layout(size, block, already).len(),
    ensures
        ({
            let all = layout(size, block, already);
            let b = all[i];
            &&& all[0].start == 0
            &&& all.last().end == size - 1
            &&& b.index == i
            &&& i + 1 < all.len() ==> all[i + 1].start == b.end + 1 && b.end - b.start + 1 == block
            &&& b.start <= b.end && b.end - b.start < block
            &&& already.contains(i as usize) ==> b.status is Done && b.got == b.end - b.start + 1
            &&& !already.contains(i as usize) ==> b.status is Pending && b.got == 0
        }),
{
    let all = layout(size, block, already);
    let n = block_count(size, block) as int;
    let d = block as int;
    assert(n == (size + d - 1) / d);
    assert((n - 1) * d < size && size <= n * d) by (nonlinear_arith)
        requires
            n == (size + d - 1) / d,
            d > 0,
    ;
    assert(n > 0) by (nonlinear_arith)
        requires
            size <= n * d,
            size > 0,
            d > 0,
    ;
    assert(0 <= i * d && i * d <= (n - 1) * d && (i + 1) * d == i * d + d) by (nonlinear_arith)
        requires
            0 <= i <= n - 1,
            d > 0,
    ;
    if i + 1 < n {
        assert((i + 1) * d <= (n - 1) * d) by (nonlinear_arith)
            requires
                i + 1 <= n - 1,
                d > 0,
        ;
    }
    assert((n - 1) * d + d == n * d) by (nonlinear_arith);
    assert(0 * d == 0);
    assert(all.last() == nth_block(size, block, already, n - 1));
}

/// Every network gets as many streams as were asked for, one network after the other.
pub proof fn law_every_network_gets_its_streams(nets: Seq<Seq<char>>, per: nat, i: int, k: int)
    requires
        0 <= i < nets.len(),
        0 <= k < per,
    ensures
        streams_of(nets, per).len() == nets.len() * per,
        streams_of(nets, per)[i * per + k] == nets[i],
    decreases nets.len(),
{
    let m = nets.len() - 1;
    let before = streams_of(nets.drop_last(), per);
    if m > 0 {
        law_every_network_gets_its_streams(nets.drop_last(), per, 0, k);
    } else {
        assert(before.len() == 0);
        assert(0 * per == 0);
    }
    assert(m * per + per == nets.len() * per) by (nonlinear_arith)
        requires
            m == nets.len() - 1,
    ;
    assert(0 <= i * per) by (nonlinear_arith)
        requires
            0 <= i,
    ;
    if i < m {
        law_every_network_gets_its_streams(nets.drop_last(), per, i, k);
        assert(i * per + k < m * per) by (nonlinear_arith)
            requires
                0 <= i < m,
                0 <= k < per,
        ;
    }
}

/// The failure that is reported is the first there was.
pub proof fn law_the_first_failure_is_kept(failed: Option<Seq<char>>, e: Seq<char>, n: u64)
    ensures
        failed is Some ==> first_failure(failed, Err(e)) == failed,
        failed is None ==> first_failure(failed, Err(e)) == Some(e),
        first_failure(failed, Ok(n)) == failed,
{
}

/// The bytes that are there already are those of the blocks that are done, each in full.
pub proof fn law_what_is_resumed_are_whole_blocks(blocks: Seq<BlockView>, b: BlockView)
    ensures
        bytes_done(Seq::empty()) == 0,
        b.status is Done ==> bytes_done(blocks.push(b)) == bytes_done(blocks) + (b.end - b.start + 1),
        !(b.status is Done) ==> bytes_done(blocks.push(b)) == bytes_done(blocks),
{
    assert(blocks.push(b).drop_last() =~= blocks);
}

} // verus!
