//! What a precompute run has to solve, and under which names.

use crate::cache;
use crate::cache::CacheEntry;
use crate::cards;
use crate::flops;
use crate::keys;
use crate::suits;
use crate::text;
use crate::tree::CacheNode;
use vstd::prelude::*;

verus! {

/// One line of a precompute configuration: a pair of ranges at one SPR.
pub struct PrecomputeLine {
    pub label: String,
    pub oop_range: String,
    pub ip_range: String,
    /// The SPR as it is written in the names of entries.
    pub spr: String,
    /// Solve only so many canonical flops, the most frequent ones.
    pub flops: Option<usize>,
    /// Solve these flops instead, each as the engine read it.
    pub flop_list: Option<Vec<Result<[u8; 3], String>>>,
}

pub struct PrecomputeConfig {
    pub lines: Vec<PrecomputeLine>,
}

/// A flop to solve, in canonical form, and the name of its entry.
pub struct PlannedFlop {
    pub flop: [u8; 3],
    pub name: String,
}

/// The pot that every precomputed solve starts with.
pub const NORMALIZED_POT: i32 = 100;

// ---- Chunks --------------------------------------------------------------------------------

/// How many of `n` flops belong to chunk `i` of `k`.
pub open spec fn chunk_len(n: nat, i: int, k: int) -> nat {
    if i < n {
        ((n - i - 1) / k + 1) as nat
    } else {
        0
    }
}

/// Chunk `i` of `k`: every `k`-th flop, starting with number `i`.
pub open spec fn chunk_of<T>(flops: Seq<T>, i: int, k: int) -> Seq<T> {
    Seq::new(chunk_len(flops.len(), i, k), |j: int| flops[i + j * k])
}

/// The flops of a run: all, or those of one chunk.
pub open spec fn chunked<T>(flops: Seq<T>, chunk: Option<(usize, usize)>) -> Seq<T> {
    match chunk {
        Some((i, k)) => chunk_of(flops, i as int, k as int),
        None => flops,
    }
}

/// Chunk `i` of `k` exists.
pub open spec fn is_chunk(chunk: Option<(usize, usize)>) -> bool {
    chunk matches Some((i, k)) ==> i < k
}

/// Refuses a chunk that does not exist.
pub fn check_chunk(chunk: Option<(usize, usize)>) -> (res: Result<(), String>)
    ensures
        match res {
            Ok(_) => is_chunk(chunk),
            Err(e) => chunk matches Some((i, k)) && i >= k && e@ == "bad --chunk "@ + text::decimal(
                i as int,
            ) + "/"@ + text::decimal(k as int) + ": need 0 <= i < k"@,
        },
{
    if let Some((i, k)) = chunk {
        if k == 0 || i >= k {
            let mut message: String = "bad --chunk ".to_owned();
            text::push_numeral(&mut message, i as u128, 10);
            message.append("/");
            text::push_numeral(&mut message, k as u128, 10);
            message.append(": need 0 <= i < k");
            return Err(message);
        }
    }
    Ok(())
}

/// Whether a run takes the line of the given number.
pub fn takes_line(line_filter: Option<usize>, line: usize) -> (r: bool)
    ensures
        r == (line_filter matches Some(n) ==> n == line),
{
    match line_filter {
        Some(n) => n == line,
        None => true,
    }
}

fn chunk_flops(flops: &Vec<[u8; 3]>, i: usize, k: usize) -> (out: Vec<[u8; 3]>)
    requires
        i < k,
    ensures
        out@ == chunk_of(flops@, i as int, k as int),
{
    let mut out: Vec<[u8; 3]> = Vec::new();
    let n: usize = flops.len();
    if i >= n {
        assert(out@ =~= chunk_of(flops@, i as int, k as int));
        return out;
    }
    let mut at: usize = i;
    let mut more: bool = true;
    assert(0 * k == 0) by (nonlinear_arith);
    while more
        invariant
            n == flops@.len(),
            i < k,
            i < n,
            more ==> at < n && at == i + out@.len() * k,
            !more ==> n <= i + out@.len() * k && out@.len() > 0 && i + (out@.len() - 1) * k < n,
            forall|j: int| 0 <= j < out@.len() ==> #[trigger] out@[j] == flops@[i + j * k],
        decreases more as int, n - at,
    {
        let ghost len = out@.len() as int;
        out.push(flops[at]);
        proof {
            assert((len + 1) * k == len * k + k) by (nonlinear_arith);
        }
        if k < n - at {
            at = at + k;
        } else {
            more = false;
        }
    }
    proof {
        let len = out@.len() as int;
        let kk = k as int;
        let m = n - i - 1;
        // (len - 1) * k <= m < len * k
        assert(m / kk == len - 1) by {
            assert(len * kk == (len - 1) * kk + kk) by (nonlinear_arith);
            vstd::arithmetic::div_mod::lemma_fundamental_div_mod_converse(
                m,
                kk,
                len - 1,
                m - (len - 1) * kk,
            );
        }
        assert(out@ =~= chunk_of(flops@, i as int, k as int));
    }
    out
}

// ---- Lines ---------------------------------------------------------------------------------

/// The canonical forms of the flops of a list.
pub open spec fn forms_of(list: Seq<Result<[u8; 3], String>>) -> Seq<Seq<u8>> {
    list.map_values(|f: Result<[u8; 3], String>| suits::canonical_form(f->Ok_0@))
}

/// Flop `j` of a list is the first that could not be read.
pub open spec fn is_first_unread(list: Seq<Result<[u8; 3], String>>, j: int) -> bool {
    &&& 0 <= j < list.len()
    &&& list[j] is Err
    &&& forall|i: int| 0 <= i < j ==> (#[trigger] list[i]) is Ok
}

/// The most frequent flops, as many as asked for.
pub open spec fn most_frequent(all: Seq<([u8; 3], u32)>, limit: Option<usize>) -> Seq<Seq<u8>> {
    let n = match limit {
        Some(n) => if n < all.len() {
            n as int
        } else {
            all.len() as int
        },
        None => all.len() as int,
    };
    all.take(n).map_values(|f: ([u8; 3], u32)| f.0@)
}

/// The flops that a line asks for, before any division into chunks.
pub open spec fn wanted_flops(line: PrecomputeLine, all: Seq<([u8; 3], u32)>) -> Seq<Seq<u8>> {
    match line.flop_list {
        Some(list) => forms_of(list@),
        None => most_frequent(all, line.flops),
    }
}

pub open spec fn cards_of(flops: Seq<[u8; 3]>) -> Seq<Seq<u8>> {
    flops.map_values(|f: [u8; 3]| f@)
}

fn listed_flops(list: &Vec<Result<[u8; 3], String>>) -> (res: Result<Vec<[u8; 3]>, String>)
    ensures
        match res {
            Ok(flops) => (forall|i: int| 0 <= i < list@.len() ==> (#[trigger] list@[i]) is Ok)
                && cards_of(flops@) == forms_of(list@),
            Err(e) => exists|j: int| #[trigger]
                is_first_unread(list@, j) && e@ == "bad flopList entry: "@ + list@[j]->Err_0@,
        },
{
    let mut flops: Vec<[u8; 3]> = Vec::new();
    let mut i: usize = 0;
    while i < list.len()
        invariant
            i <= list@.len(),
            forall|k: int| 0 <= k < i ==> (#[trigger] list@[k]) is Ok,
            cards_of(flops@) == forms_of(list@.take(i as int)),
        decreases list@.len() - i,
    {
        let ghost so_far = cards_of(flops@);
        match &list[i] {
            Ok(f) => {
                let (canon, _perm): ([u8; 3], [u8; 4]) = suits::canonical_flop(*f);
                flops.push(canon);
                assert(cards_of(flops@) =~= so_far.push(canon@));
                assert(list@.take(i + 1) =~= list@.take(i as int).push(list@[i as int]));
                assert(forms_of(list@.take(i + 1)) =~= forms_of(list@.take(i as int)).push(
                    canon@,
                ));
            },
            Err(words) => {
                assert(is_first_unread(list@, i as int));
                return Err(text::joined("bad flopList entry: ", words.as_str()));
            },
        }
        i += 1;
    }
    assert(list@.take(i as int) =~= list@);
    Ok(flops)
}

fn first_flops(all: &Vec<([u8; 3], u32)>, limit: Option<usize>) -> (flops: Vec<[u8; 3]>)
    ensures
        cards_of(flops@) == most_frequent(all@, limit),
{
    let n: usize = match limit {
        Some(n) => if n < all.len() {
            n
        } else {
            all.len()
        },
        None => all.len(),
    };
    let mut flops: Vec<[u8; 3]> = Vec::new();
    let mut i: usize = 0;
    while i < n
        invariant
            i <= n <= all@.len(),
            cards_of(flops@) == all@.take(i as int).map_values(|f: ([u8; 3], u32)| f.0@),
        decreases n - i,
    {
        let ghost so_far = cards_of(flops@);
        flops.push(all[i].0);
        proof {
            let form = |f: ([u8; 3], u32)| f.0@;
            assert(cards_of(flops@) =~= so_far.push(all@[i as int].0@));
            assert(all@.take(i + 1) =~= all@.take(i as int).push(all@[i as int]));
            assert(all@.take(i + 1).map_values(form) =~= all@.take(i as int).map_values(form).push(
                all@[i as int].0@,
            ));
        }
        i += 1;
    }
    flops
}

/// What a run has to solve for one line: the canonical flops of its list, or
/// the most frequent ones out of `all`; of these the ones of a chunk, in order;
/// and the name of each one's entry. An unreadable flop in the list fails the
/// line.
pub fn plan_line(
    line: &PrecomputeLine,
    all: &Vec<([u8; 3], u32)>,
    chunk: Option<(usize, usize)>,
) -> (res: Result<Vec<PlannedFlop>, String>)
    requires
        is_chunk(chunk),
    ensures
        match res {
            Ok(plan) => {
                &&& line.flop_list matches Some(list) ==> forall|i: int|
                    0 <= i < list@.len() ==> (#[trigger] list@[i]) is Ok
                &&& plan@.map_values(|p: PlannedFlop| p.flop@) == chunked(
                    wanted_flops(*line, all@),
                    chunk,
                )
                &&& forall|j: int|
                    0 <= j < plan@.len() ==> (#[trigger] plan@[j]).name@ == keys::name_text(
                        keys::hash_text(line.oop_range@, line.ip_range@),
                        plan@[j].flop@,
                        line.spr@,
                    )
            },
            Err(e) => line.flop_list matches Some(list) && exists|j: int| #[trigger]
                is_first_unread(list@, j) && e@ == "bad flopList entry: "@ + list@[j]->Err_0@,
        },
{
    let flops: Vec<[u8; 3]> = match &line.flop_list {
        Some(list) => match listed_flops(list) {
            Ok(f) => f,
            Err(e) => {
                return Err(e);
            },
        },
        None => first_flops(all, line.flops),
    };
    assert(cards_of(flops@) == wanted_flops(*line, all@));
    let ghost wanted = flops@;
    let flops: Vec<[u8; 3]> = match chunk {
        Some((i, k)) => chunk_flops(&flops, i, k),
        None => flops,
    };
    proof {
        if let Some((i, k)) = chunk {
            let target = chunk_of(cards_of(wanted), i as int, k as int);
            assert forall|j: int| 0 <= j < flops@.len() implies (#[trigger] flops@[j])@
                == target[j] by {
                lemma_chunk_index(wanted.len(), i as int, k as int, j);
            }
            assert(cards_of(flops@) =~= target);
        }
    }
    let hash: String = keys::range_hash(line.oop_range.as_str(), line.ip_range.as_str());
    let mut plan: Vec<PlannedFlop> = Vec::new();
    let mut n: usize = 0;
    while n < flops.len()
        invariant
            n <= flops@.len(),
            hash@ == keys::hash_text(line.oop_range@, line.ip_range@),
            plan@.map_values(|p: PlannedFlop| p.flop@) == cards_of(flops@.take(n as int)),
            forall|j: int|
                0 <= j < plan@.len() ==> (#[trigger] plan@[j]).name@ == keys::name_text(
                    hash@,
                    plan@[j].flop@,
                    line.spr@,
                ),
        decreases flops@.len() - n,
    {
        let name: String = keys::entry_name(hash.as_str(), flops[n], line.spr.as_str());
        let ghost so_far = plan@.map_values(|p: PlannedFlop| p.flop@);
        plan.push(PlannedFlop { flop: flops[n], name });
        proof {
            assert(plan@.map_values(|p: PlannedFlop| p.flop@) =~= so_far.push(flops@[n as int]@));
            assert(flops@.take(n + 1) =~= flops@.take(n as int).push(flops@[n as int]));
            assert(cards_of(flops@.take(n + 1)) =~= cards_of(flops@.take(n as int)).push(
                flops@[n as int]@,
            ));
        }
        n += 1;
    }
    assert(flops@.take(n as int) =~= flops@);
    Ok(plan)
}

/// The flop of a solve, as the engine wants it: its cards in ascending order.
pub fn board_for_solve(canon: [u8; 3]) -> (board: [u8; 3])
    ensures
        board@ == suits::descending(canon@).reverse(),
{
    let d: [u8; 3] = suits::sorted_descending(canon[0], canon[1], canon[2]);
    let board: [u8; 3] = [d[2], d[1], d[0]];
    assert(seq![canon@[0], canon@[1], canon@[2]] =~= canon@);
    assert(board@ =~= suits::descending(canon@).reverse());
    board
}

/// The entry for a solve of a canonical flop, from the hands of both players
/// and the summary of the flop street.
pub fn solved_entry(
    line: &PrecomputeLine,
    canon: [u8; 3],
    oop_hands: Vec<String>,
    ip_hands: Vec<String>,
    nodes: Vec<CacheNode>,
) -> (entry: CacheEntry)
    ensures
        entry.version == cache::CACHE_FORMAT_VERSION,
        entry.oop_range@ == line.oop_range@,
        entry.ip_range@ == line.ip_range@,
        entry.pot == NORMALIZED_POT,
        entry.flop@ == cards::flop_text(canon@),
        entry.oop_hands == oop_hands,
        entry.ip_hands == ip_hands,
        entry.nodes == nodes,
        cache::is_for(entry, line.oop_range@, line.ip_range@),
{
    CacheEntry {
        version: cache::CACHE_FORMAT_VERSION,
        oop_range: line.oop_range.clone(),
        ip_range: line.ip_range.clone(),
        pot: NORMALIZED_POT,
        flop: cards::flop_string(canon),
        oop_hands,
        ip_hands,
        nodes,
    }
}

// ---- Working off a plan --------------------------------------------------------------------

/// What a run does next with the flop at a position of its plan: look whether
/// its entry exists, solve it, or store the entry; or the run is over, because
/// the plan is worked off or because an entry could not be stored.
#[derive(Clone, Copy, PartialEq, Eq, Structural)]
pub enum RunStep {
    Look(usize),
    Solve(usize),
    Store(usize),
    Finished,
    Stopped,
}

/// Where a run stands, out of a plan of `total` flops, with how many flops it
/// has solved and stored and how many it has skipped.
pub struct RunView {
    pub total: nat,
    pub step: RunStep,
    pub solved: nat,
    pub skipped: nat,
}

impl RunView {
    /// A run that has not begun.
    pub open spec fn start(total: nat) -> RunView {
        RunView {
            total,
            step: if total > 0 {
                RunStep::Look(0)
            } else {
                RunStep::Finished
            },
            solved: 0,
            skipped: 0,
        }
    }

    /// The step after a position is done with.
    pub open spec fn step_after(self, i: usize) -> RunStep {
        if i + 1 < self.total {
            RunStep::Look((i + 1) as usize)
        } else {
            RunStep::Finished
        }
    }

    /// After a look for the entry at a position: a flop whose entry exists is
    /// skipped.
    pub open spec fn after_look(self, i: usize, exists_already: bool) -> RunView {
        if exists_already {
            RunView { step: self.step_after(i), skipped: self.skipped + 1, ..self }
        } else {
            RunView { step: RunStep::Solve(i), ..self }
        }
    }

    /// After a solve: one that failed is passed over.
    pub open spec fn after_solve(self, i: usize, ok: bool) -> RunView {
        if ok {
            RunView { step: RunStep::Store(i), ..self }
        } else {
            RunView { step: self.step_after(i), ..self }
        }
    }

    /// After an entry was to be stored: if it could not be, the run stops.
    pub open spec fn after_store(self, i: usize, ok: bool) -> RunView {
        if ok {
            RunView { step: self.step_after(i), solved: self.solved + 1, ..self }
        } else {
            RunView { step: RunStep::Stopped, ..self }
        }
    }

    /// A position is within the plan, and no more flops are counted than were
    /// passed.
    pub open spec fn inv(self) -> bool {
        &&& self.total <= usize::MAX
        &&& self.solved + self.skipped <= self.total
        &&& match self.step {
            RunStep::Look(i) => i < self.total && self.solved + self.skipped <= i,
            RunStep::Solve(i) => i < self.total && self.solved + self.skipped <= i,
            RunStep::Store(i) => i < self.total && self.solved + self.skipped <= i,
            _ => true,
        }
    }
}

/// A run over a plan. The program looks, solves and stores; the run says what
/// comes next.
pub struct PlanRun {
    total: usize,
    step: RunStep,
    solved: usize,
    skipped: usize,
}

impl View for PlanRun {
    type V = RunView;

    closed spec fn view(&self) -> RunView {
        RunView {
            total: self.total as nat,
            step: self.step,
            solved: self.solved as nat,
            skipped: self.skipped as nat,
        }
    }
}

impl PlanRun {
    /// A run over a plan of so many flops.
    pub fn new(total: usize) -> (run: PlanRun)
        ensures
            run@ == RunView::start(total as nat),
            run@.inv(),
    {
        let step: RunStep = if total > 0 {
            RunStep::Look(0)
        } else {
            RunStep::Finished
        };
        PlanRun { total, step, solved: 0, skipped: 0 }
    }

    /// What to do next.
    pub fn next(&self) -> (step: RunStep)
        ensures
            step == self@.step,
    {
        self.step
    }

    /// How many flops were solved and stored.
    pub fn solved_count(&self) -> (n: usize)
        ensures
            n == self@.solved,
    {
        self.solved
    }

    /// How many flops were skipped.
    pub fn skipped_count(&self) -> (n: usize)
        ensures
            n == self@.skipped,
    {
        self.skipped
    }

    fn move_on(&mut self, i: usize)
        requires
            i < old(self)@.total,
        ensures
            final(self)@ == (RunView { step: old(self)@.step_after(i), ..old(self)@ }),
    {
        self.step = if i < self.total - 1 {
            RunStep::Look(i + 1)
        } else {
            RunStep::Finished
        };
    }

    /// Takes what the look for the entry at a position found.
    pub fn looked(&mut self, i: usize, exists_already: bool)
        requires
            old(self)@.inv(),
            old(self)@.step == RunStep::Look(i),
        ensures
            final(self)@ == old(self)@.after_look(i, exists_already),
            final(self)@.inv(),
    {
        if exists_already {
            self.skipped = self.skipped + 1;
            self.move_on(i);
        } else {
            self.step = RunStep::Solve(i);
        }
    }

    /// Takes whether the flop at a position was solved.
    pub fn solved(&mut self, i: usize, ok: bool)
        requires
            old(self)@.inv(),
            old(self)@.step == RunStep::Solve(i),
        ensures
            final(self)@ == old(self)@.after_solve(i, ok),
            final(self)@.inv(),
    {
        if ok {
            self.step = RunStep::Store(i);
        } else {
            self.move_on(i);
        }
    }

    /// Takes whether the entry of a position was stored.
    pub fn stored(&mut self, i: usize, ok: bool)
        requires
            old(self)@.inv(),
            old(self)@.step == RunStep::Store(i),
        ensures
            final(self)@ == old(self)@.after_store(i, ok),
            final(self)@.inv(),
    {
        if ok {
            self.solved = self.solved + 1;
            self.move_on(i);
        } else {
            self.step = RunStep::Stopped;
        }
    }
}

// ---- Laws ----------------------------------------------------------------------------------

proof fn lemma_chunk_index(n: nat, i: int, k: int, j: int)
    requires
        0 <= i < k,
        0 <= j < chunk_len(n, i, k),
    ensures
        0 <= i + j * k < n,
{
    let m = n - i - 1;
    assert(j <= m / k);
    assert(j * k <= m && 0 <= j * k) by (nonlinear_arith)
        requires
            0 <= j <= m / k,
            k > 0,
            m >= 0,
    ;
}

/// The chunks of a run cover its flops: flop number `n` is in the chunk of its
/// number modulo `k`, at the place of its number divided by `k`.
pub proof fn law_chunks_cover_the_flops<T>(flops: Seq<T>, k: int, n: int)
    requires
        k > 0,
        0 <= n < flops.len(),
    ensures
        0 <= n % k < k,
        0 <= n / k < chunk_of(flops, n % k, k).len(),
        chunk_of(flops, n % k, k)[n / k] == flops[n],
{
    let i = n % k;
    let j = n / k;
    assert(n == k * j + i && 0 <= i < k && 0 <= j) by (nonlinear_arith)
        requires
            k > 0,
            n >= 0,
            i == n % k,
            j == n / k,
    ;
    assert(i + j * k == n) by (nonlinear_arith)
        requires
            n == k * j + i,
    ;
    let m = flops.len() - i - 1;
    assert(j <= m / k) by (nonlinear_arith)
        requires
            j * k <= m,
            k > 0,
    ;
}

/// The chunks of a run overlap nowhere and hold nothing else: each place of a
/// chunk is one flop of the run, by whose number the chunk and the place are
/// determined.
pub proof fn law_chunks_are_disjoint<T>(flops: Seq<T>, i: int, k: int, j: int)
    requires
        0 <= i < k,
        0 <= j < chunk_of(flops, i, k).len(),
    ensures
        0 <= i + j * k < flops.len(),
        chunk_of(flops, i, k)[j] == flops[i + j * k],
        (i + j * k) % k == i,
        (i + j * k) / k == j,
{
    lemma_chunk_index(flops.len(), i, k, j);
    vstd::arithmetic::div_mod::lemma_fundamental_div_mod_converse(i + j * k, k, j, i);
}

/// A chunk keeps the order of the run: a later place is a later flop.
pub proof fn law_chunks_keep_the_order(i: int, k: int, a: int, b: int)
    requires
        0 <= i < k,
        0 <= a < b,
    ensures
        i + a * k < i + b * k,
{
    assert(a * k < b * k) by (nonlinear_arith)
        requires
            a < b,
            k > 0,
    ;
}

/// The flops of a run over the list of canonical flops have names of their own,
/// so no entry overwrites another.
pub proof fn law_planned_names_differ(
    all: Seq<([u8; 3], u32)>,
    limit: Option<usize>,
    oop_range: Seq<char>,
    ip_range: Seq<char>,
    spr: Seq<char>,
    a: int,
    b: int,
)
    requires
        flops::is_weighted_list(all),
        0 <= a < b < most_frequent(all, limit).len(),
    ensures
        keys::name_text(
            keys::hash_text(oop_range, ip_range),
            most_frequent(all, limit)[a],
            spr,
        ) != keys::name_text(
            keys::hash_text(oop_range, ip_range),
            most_frequent(all, limit)[b],
            spr,
        ),
{
    let hash = keys::hash_text(oop_range, ip_range);
    let x = all[a].0@;
    let y = all[b].0@;
    assert(most_frequent(all, limit)[a] == x && most_frequent(all, limit)[b] == y);
    flops::law_listed_flops_differ(all, a, b);
    flops::law_listed_flops_are_canonical(all, a);
    flops::law_listed_flops_are_canonical(all, b);
    keys::law_hash_has_sixteen_digits(oop_range, ip_range);
    if keys::name_text(hash, x, spr) == keys::name_text(hash, y, spr) {
        keys::law_entry_names_differ(hash, x, spr, hash, y, spr);
    }
}

/// A full run covers every deal: whatever flop is dealt, one of the flops that
/// were planned is stored under a name that belongs to the key of the lookup,
/// and the name gives back the SPR.
pub proof fn law_full_run_covers_every_deal(
    all: Seq<([u8; 3], u32)>,
    oop_range: Seq<char>,
    ip_range: Seq<char>,
    spr: Seq<char>,
    dealt: (u8, u8, u8),
) -> (j: int)
    requires
        flops::is_weighted_list(all),
        flops::is_raw_flop(dealt),
    ensures
        0 <= j < most_frequent(all, None).len(),
        keys::spr_in_name(
            keys::name_text(
                keys::hash_text(oop_range, ip_range),
                most_frequent(all, None)[j],
                spr,
            ),
            keys::prefix_text(
                keys::hash_text(oop_range, ip_range),
                suits::canonical_form(flops::raw_cards(dealt)),
            ),
        ) == Some(spr),
{
    let cards = flops::raw_cards(dealt);
    let form = suits::canonical_form(cards);
    assert(flops::is_listed(all, form));
    let j = choose|j: int| 0 <= j < all.len() && #[trigger] all[j].0@ == form;
    assert(most_frequent(all, None)[j] == form);
    keys::law_stored_entry_is_found(oop_range, ip_range, cards, cards, spr);
    j
}

/// What a run meets: at which positions the entry exists when it is looked
/// for, which flops can be solved, and which entries can be stored.
pub struct RunWorld {
    pub has_entry: spec_fn(int) -> bool,
    pub solves: spec_fn(int) -> bool,
    pub stores: spec_fn(int) -> bool,
}

impl RunWorld {
    /// A run after its next step. A run that is over stays as it is.
    pub open spec fn step(self, run: RunView) -> RunView {
        match run.step {
            RunStep::Look(i) => run.after_look(i, (self.has_entry)(i as int)),
            RunStep::Solve(i) => run.after_solve(i, (self.solves)(i as int)),
            RunStep::Store(i) => run.after_store(i, (self.stores)(i as int)),
            _ => run,
        }
    }

    /// A run after `n` steps.
    pub open spec fn steps(self, run: RunView, n: nat) -> RunView
        decreases n,
    {
        if n == 0 {
            run
        } else {
            self.step(self.steps(run, (n - 1) as nat))
        }
    }

    /// A run over so many flops stores the entry of a position at some time.
    pub open spec fn has_stored(self, total: nat, i: usize) -> bool {
        (self.stores)(i as int) && exists|n: nat|
            (#[trigger] self.steps(RunView::start(total), n)).step == RunStep::Store(i)
    }

    /// The flop at a position is solved and stored in a run that gets there.
    pub open spec fn is_filled(self, i: int) -> bool {
        !(self.has_entry)(i) && (self.solves)(i) && (self.stores)(i)
    }
}

/// How many of the first `n` positions have a property.
pub open spec fn count_of(p: spec_fn(int) -> bool, n: int) -> nat
    decreases n,
{
    if n <= 0 {
        0
    } else {
        count_of(p, n - 1) + (if p(n - 1) {
            1nat
        } else {
            0nat
        })
    }
}

/// A flop whose entry exists is never solved, nor is its entry stored anew, at
/// any time of a run.
pub proof fn law_existing_entries_are_not_solved(world: RunWorld, total: nat, n: nat, i: usize)
    requires
        (world.has_entry)(i as int),
    ensures
        world.steps(RunView::start(total), n).step != RunStep::Solve(i),
        world.steps(RunView::start(total), n).step != RunStep::Store(i),
    decreases n,
{
    if n > 0 {
        law_existing_entries_are_not_solved(world, total, (n - 1) as nat, i);
    }
}

/// What holds at every time of a run: the run is where it may be, all flops
/// before the position were dealt with, and the counts are those of the flops
/// before it.
spec fn run_holds(world: RunWorld, run: RunView, total: nat) -> bool {
    let at = match run.step {
        RunStep::Look(i) => i as int,
        RunStep::Solve(i) => i as int,
        RunStep::Store(i) => i as int,
        _ => total as int,
    };
    &&& run.total == total
    &&& !(run.step is Stopped)
    &&& 0 <= at <= total
    &&& !(run.step is Finished) ==> at < total
    &&& run.step matches RunStep::Solve(i) ==> !(world.has_entry)(i as int)
    &&& run.step matches RunStep::Store(i) ==> !(world.has_entry)(i as int) && (world.solves)(
        i as int,
    )
    &&& run.skipped == count_of(world.has_entry, at)
    &&& run.solved == count_of(|i: int| world.is_filled(i), at)
}

/// How many steps a run can still take.
spec fn steps_left(run: RunView) -> int {
    match run.step {
        RunStep::Look(i) => 3 * (run.total - i),
        RunStep::Solve(i) => 3 * (run.total - i) - 1,
        RunStep::Store(i) => 3 * (run.total - i) - 2,
        _ => 0,
    }
}

proof fn lemma_run_holds(world: RunWorld, total: nat, n: nat)
    requires
        total <= usize::MAX,
        forall|i: int| 0 <= i < total ==> #[trigger] (world.stores)(i),
    ensures
        run_holds(world, world.steps(RunView::start(total), n), total),
        steps_left(world.steps(RunView::start(total), n)) <= 3 * total,
        n <= 3 * total ==> steps_left(world.steps(RunView::start(total), n)) <= 3 * total - n,
        world.steps(RunView::start(total), n).step is Finished || n < 3 * total,
    decreases n,
{
    if n > 0 {
        lemma_run_holds(world, total, (n - 1) as nat);
        let before = world.steps(RunView::start(total), (n - 1) as nat);
        match before.step {
            RunStep::Look(i) => {
                assert((world.stores)(i as int));
                assert(count_of(world.has_entry, i + 1) == count_of(world.has_entry, i as int)
                    + (if (world.has_entry)(i as int) {
                    1nat
                } else {
                    0nat
                }));
            },
            RunStep::Solve(i) => {
                assert((world.stores)(i as int));
            },
            RunStep::Store(i) => {
                assert((world.stores)(i as int));
            },
            _ => {},
        }
    }
}

/// A run whose entries can all be stored looks for every entry at some time.
proof fn lemma_run_gets_there(world: RunWorld, total: nat, i: int) -> (n: nat)
    requires
        total <= usize::MAX,
        forall|j: int| 0 <= j < total ==> #[trigger] (world.stores)(j),
        0 <= i < total,
    ensures
        world.steps(RunView::start(total), n).step == RunStep::Look(i as usize),
        world.steps(RunView::start(total), n).total == total,
    decreases i,
{
    let start = RunView::start(total);
    if i == 0 {
        assert(world.steps(start, 0) == start);
        0
    } else {
        let m = lemma_run_gets_there(world, total, i - 1);
        assert((world.stores)(i - 1));
        let next = world.steps(start, m + 1);
        assert(next == world.step(world.steps(start, m)));
        if (world.has_entry)(i - 1) {
            m + 1
        } else {
            assert(world.steps(start, m + 2) == world.step(next));
            if (world.solves)(i - 1) {
                assert(world.steps(start, m + 3) == world.step(world.steps(start, m + 2)));
                m + 3
            } else {
                m + 2
            }
        }
    }
}

/// A run whose entries can all be stored works off its whole plan, whatever
/// solves fail: it ends after at most three steps for each flop, and has then
/// skipped the flops whose entries existed and stored all others that could be
/// solved, each of them at some time.
pub proof fn law_run_works_off_its_plan(world: RunWorld, total: nat)
    requires
        total <= usize::MAX,
        forall|i: int| 0 <= i < total ==> #[trigger] (world.stores)(i),
    ensures
        ({
            let end = world.steps(RunView::start(total), 3 * total);
            &&& end.step is Finished
            &&& end.skipped == count_of(world.has_entry, total as int)
            &&& end.solved == count_of(|i: int| world.is_filled(i), total as int)
        }),
        forall|i: int|
            0 <= i < total && #[trigger] world.is_filled(i) ==> world.has_stored(
                total,
                i as usize,
            ),
{
    lemma_run_holds(world, total, 3 * total);
    assert forall|i: int| 0 <= i < total && #[trigger] world.is_filled(i) implies world.has_stored(
        total,
        i as usize,
    ) by {
        let start = RunView::start(total);
        let n = lemma_run_gets_there(world, total, i);
        assert(world.steps(start, n + 1).step == RunStep::Solve(i as usize));
        assert(world.steps(start, n + 2).step == RunStep::Store(i as usize));
    }
}

/// A run whose entries all exist solves nothing and finishes: after `n` steps
/// it has skipped `n` flops, and it is over after one step for each flop.
pub proof fn law_complete_run_solves_nothing(world: RunWorld, total: nat, n: nat)
    requires
        total <= usize::MAX,
        n <= total,
        forall|i: int| 0 <= i < total ==> #[trigger] (world.has_entry)(i),
    ensures
        ({
            let now = world.steps(RunView::start(total), n);
            &&& now.step == (if n < total {
                RunStep::Look(n as usize)
            } else {
                RunStep::Finished
            })
            &&& now.solved == 0
            &&& now.skipped == n
            &&& now.total == total
        }),
    decreases n,
{
    if n > 0 {
        law_complete_run_solves_nothing(world, total, (n - 1) as nat);
        assert((world.has_entry)(n - 1));
    }
}

/// A run that is repeated takes up where it was left: if the entries that a
/// first run stored are still there, a second run neither solves nor stores any
/// of them again.
pub proof fn law_repeated_run_skips_what_was_stored(
    first: RunWorld,
    second: RunWorld,
    total: nat,
    n: nat,
    i: usize,
)
    requires
        first.has_stored(total, i),
        forall|j: usize| #[trigger] first.has_stored(total, j) ==> (second.has_entry)(j as int),
    ensures
        second.steps(RunView::start(total), n).step != RunStep::Solve(i),
        second.steps(RunView::start(total), n).step != RunStep::Store(i),
{
    law_existing_entries_are_not_solved(second, total, n, i);
}

/// An entry that cannot be stored stops a run for good.
pub proof fn law_stopped_run_stays_stopped(world: RunWorld, run: RunView, n: nat)
    requires
        run.step is Stopped,
    ensures
        world.steps(run, n) == run,
    decreases n,
{
    if n > 0 {
        law_stopped_run_stays_stopped(world, run, (n - 1) as nat);
    }
}

/// The most frequent flops are the first ones of the list, as many as asked for
/// and as there are, in their order.
pub proof fn law_most_frequent_come_first(all: Seq<([u8; 3], u32)>, limit: usize, k: int)
    ensures
        most_frequent(all, None).len() == all.len(),
        most_frequent(all, Some(limit)).len() == vstd::math::min(limit as int, all.len() as int),
        0 <= k < all.len() ==> most_frequent(all, None)[k] == all[k].0@,
        0 <= k < all.len() && k < limit ==> most_frequent(all, Some(limit))[k] == all[k].0@,
{
}

/// A line takes the flops of its list, each in canonical form and in the order
/// of the list, and the most frequent flops only where it has no list.
pub proof fn law_lines_take_their_lists_first(
    line: PrecomputeLine,
    all: Seq<([u8; 3], u32)>,
    k: int,
)
    ensures
        line.flop_list matches Some(list) ==> wanted_flops(line, all).len() == list@.len() && (0
            <= k < list@.len() && list@[k] is Ok ==> wanted_flops(line, all)[k]
            == suits::canonical_form(list@[k]->Ok_0@)),
        line.flop_list is None ==> wanted_flops(line, all) == most_frequent(all, line.flops),
{
}

/// A board to solve has the cards of the flop, from the lowest to the highest.
pub proof fn law_board_is_ascending(canon: Seq<u8>)
    requires
        canon.len() == 3,
    ensures
        ({
            let board = suits::descending(canon).reverse();
            &&& board.len() == 3
            &&& board[0] <= board[1] <= board[2]
            &&& suits::reordered(canon, board)
        }),
{
    suits::lemma_descending(canon);
    let d = suits::descending(canon);
    let board = d.reverse();
    assert(board =~= seq![d[2], d[1], d[0]]);
    assert(canon =~= seq![canon[0], canon[1], canon[2]]);
}

/// A run without chunks takes all flops; a chunk exists exactly if its number is
/// less than the number of chunks.
pub proof fn law_runs_take_all_or_a_chunk<T>(flops: Seq<T>, i: usize, k: usize)
    ensures
        chunked(flops, None) == flops,
        chunked(flops, Some((i, k))) == chunk_of(flops, i as int, k as int),
        is_chunk(None),
        is_chunk(Some((i, k))) <==> i < k,
{
}

} // verus!
