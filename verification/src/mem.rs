use vstd::prelude::*;

use crate::evaluator::{fetch_model, Backing, Fetcher};
use crate::prim::{Addr, Prim};

verus! {

/// A fetcher that is just a wrapper around a slice of values: simple and
/// fast, but the whole program sits unpacked in memory.
pub struct MemFetch<'a, T>(pub &'a [T]);

impl<'a, T> Backing<T> for MemFetch<'a, T> {
    open spec fn contents(&self) -> Seq<T> {
        self.0@
    }

    open spec fn inv(&self) -> bool {
        true
    }
}

impl<'a, Ptr: Addr, T: Copy> Fetcher<Ptr, T> for MemFetch<'a, T> {
    fn fetch(&mut self, ptr: Ptr) -> (r: Option<T>) {
        proof {
            Ptr::lemma_fits(ptr);
        }
        let i = ptr.to_usize();
        if i < self.0.len() {
            Some(self.0[i])
        } else {
            None
        }
    }
}

/// A backing store handing out 64-word blocks by block index: the words from
/// `ptr * 64` up to the end of the block or of the contents, with how many
/// of them are valid; nothing when the block starts past the end. The block
/// start is computed by a wrapping shift, exactly as a fetcher's client
/// would address it.
pub trait Load64<Ptr: Addr, T>: Backing<T> {
    fn load(&mut self, ptr: Ptr) -> (r: Option<(Vec<T>, usize)>)
        requires
            old(self).inv(),
        ensures
            final(self).inv(),
            final(self).contents() == old(self).contents(),
            ({
                let start = ptr.w_shl(6).sp_val();
                let s = old(self).contents();
                match r {
                    None => !(0 <= start < s.len()),
                    Some((buf, l)) => 0 <= start < s.len() && l == (
                    if s.len() - start < 64 {
                        s.len() - start
                    } else {
                        64
                    }) && buf@ == s.subrange(start, start + l),
                }
            }),
    ;
}

impl<'a, Ptr: Addr, T: Copy> Load64<Ptr, T> for MemFetch<'a, T> {
    #[verifier::loop_isolation(false)]
    fn load(&mut self, ptr: Ptr) -> (r: Option<(Vec<T>, usize)>) {
        let start_w = ptr.shl(6);
        proof {
            Ptr::lemma_fits(start_w);
        }
        let start = start_w.to_usize();
        if start >= self.0.len() {
            None
        } else {
            let avail = self.0.len() - start;
            let copy_len = if avail < 64 {
                avail
            } else {
                64
            };
            let mut out: Vec<T> = Vec::new();
            let mut j: usize = 0;
            while j < copy_len
                invariant
                    j <= copy_len,
                    out@.len() == j,
                    forall|k: int| 0 <= k < j ==> out@[k] == self.0@[start + k],
                decreases copy_len - j,
            {
                out.push(self.0[start + j]);
                j = j + 1;
            }
            proof {
                assert(out@ =~= self.0@.subrange(start as int, start + copy_len));
            }
            Some((out, copy_len))
        }
    }
}

/// One cache line: its recency stamp, how many words it holds, the address
/// of its first word, and the words themselves.
struct Line64<T> {
    last_use: usize,
    length: usize,
    loc: usize,
    values: Vec<T>,
}

impl<T> Line64<T> {
    /// The line faithfully mirrors a stretch of the backing contents.
    spec fn line_ok(&self, s: Seq<T>) -> bool {
        &&& self.length == self.values@.len()
        &&& self.loc + self.length <= s.len()
        &&& self.values@ == s.subrange(self.loc as int, self.loc + self.length)
    }

    spec fn spec_get(&self, ptr: usize) -> Option<T> {
        if self.loc <= ptr && ptr - self.loc < self.length {
            Some(self.values@[ptr - self.loc])
        } else {
            None
        }
    }
}

impl<T: Copy> Line64<T> {
    /// The word at absolute address `ptr`, if this line holds it.
    fn get(&self, ptr: usize) -> (r: Option<T>)
        requires
            self.length <= self.values@.len(),
        ensures
            r == self.spec_get(ptr),
    {
        if ptr >= self.loc {
            let offset = ptr - self.loc;
            if offset < self.length {
                Some(self.values[offset])
            } else {
                None
            }
        } else {
            None
        }
    }

    /// `get`, stamping the line with the current clock on a hit.
    fn get_and_set(&mut self, ptr: usize, counter: usize) -> (r: Option<T>)
        requires
            old(self).length <= old(self).values@.len(),
        ensures
            r == old(self).spec_get(ptr),
            final(self).loc == old(self).loc,
            final(self).length == old(self).length,
            final(self).values == old(self).values,
            final(self).last_use == if r is Some {
                counter
            } else {
                old(self).last_use
            },
    {
        match self.get(ptr) {
            None => None,
            Some(t) => {
                self.last_use = counter;
                Some(t)
            },
        }
    }
}

/// What one cache line looks like from outside: the address of its first
/// word, how many words it holds, and its recency stamp. The words
/// themselves are fixed by the served contents: a resident line always
/// mirrors the stretch `[loc, loc + length)` of them.
pub struct LineModel {
    pub loc: usize,
    pub length: usize,
    pub last_use: usize,
}

/// The recency key the eviction policy minimises: an empty slot counts as 0,
/// so empty slots are always preferred as victims.
pub open spec fn slot_key(l: Option<LineModel>) -> nat {
    match l {
        None => 0,
        Some(lm) => lm.last_use as nat,
    }
}

/// Whether one (possibly empty) line covers address `p`.
pub open spec fn covers_at(l: Option<LineModel>, p: int) -> bool {
    match l {
        Some(lm) => lm.loc <= p < lm.loc + lm.length,
        None => false,
    }
}

/// Whether some line of the model covers address `p`.
pub open spec fn model_covers(lines: Seq<Option<LineModel>>, p: int) -> bool {
    exists|i: int| 0 <= i < lines.len() && covers_at(#[trigger] lines[i], p)
}

/// The first slot covering `p`, or `lines.len()` when none does. A hit
/// stamps exactly this slot.
pub open spec fn first_cover_from(lines: Seq<Option<LineModel>>, p: int, i: int) -> int
    decreases lines.len() - i,
{
    if i < lines.len() {
        if covers_at(lines[i], p) {
            i
        } else {
            first_cover_from(lines, p, i + 1)
        }
    } else {
        i
    }
}

/// The victim scan: the slot among `[j, lines.len())` and `best` whose key
/// is smallest, a strictly smaller later key displacing an earlier one.
pub open spec fn victim_from(lines: Seq<Option<LineModel>>, best: int, j: int) -> int
    decreases lines.len() - j,
{
    if j < lines.len() {
        if slot_key(lines[j]) < slot_key(lines[best]) {
            victim_from(lines, j, j + 1)
        } else {
            victim_from(lines, best, j + 1)
        }
    } else {
        best
    }
}

/// The slot a miss evicts: the least recency key, an empty slot counting 0,
/// ties broken by the lowest slot index.
pub open spec fn victim(lines: Seq<Option<LineModel>>) -> int {
    victim_from(lines, 0, 1)
}

/// The victim scan yields a slot index.
pub proof fn lemma_victim_in_range(lines: Seq<Option<LineModel>>)
    requires
        lines.len() >= 1,
    ensures
        0 <= victim(lines) < lines.len(),
{
    lemma_victim_from_in_range(lines, 0, 1);
}

proof fn lemma_victim_from_in_range(lines: Seq<Option<LineModel>>, best: int, j: int)
    requires
        0 <= best < lines.len(),
        0 <= j,
    ensures
        0 <= victim_from(lines, best, j) < lines.len(),
    decreases lines.len() - j,
{
    if j < lines.len() {
        if slot_key(lines[j]) < slot_key(lines[best]) {
            lemma_victim_from_in_range(lines, j, j + 1);
        } else {
            lemma_victim_from_in_range(lines, best, j + 1);
        }
    }
}

/// The outward model of one stored line.
spec fn model_of<T>(l: Option<Line64<T>>) -> Option<LineModel> {
    match l {
        Some(line) => Some(LineModel { loc: line.loc, length: line.length, last_use: line.last_use }),
        None => None,
    }
}

/// The outward model of the whole line array.
spec fn models_of<T>(s: Seq<Option<Line64<T>>>) -> Seq<Option<LineModel>> {
    s.map_values(|l: Option<Line64<T>>| model_of(l))
}

/// When some slot covers `p`, the scan lands on a covering slot and every
/// earlier slot does not cover `p`.
pub proof fn lemma_first_cover_covers(lines: Seq<Option<LineModel>>, p: int)
    requires
        model_covers(lines, p),
    ensures
        ({
            let i = first_cover_from(lines, p, 0);
            &&& 0 <= i < lines.len()
            &&& covers_at(lines[i], p)
            &&& forall|k: int| 0 <= k < i ==> !covers_at(#[trigger] lines[k], p)
        }),
{
    let j = choose|j: int| 0 <= j < lines.len() && covers_at(lines[j], p);
    lemma_first_cover_covers_from(lines, p, 0);
}

/// As `lemma_first_cover_covers`, for a scan that starts at slot `i`.
proof fn lemma_first_cover_covers_from(lines: Seq<Option<LineModel>>, p: int, i: int)
    requires
        0 <= i <= lines.len(),
        exists|j: int| i <= j < lines.len() && covers_at(#[trigger] lines[j], p),
    ensures
        ({
            let f = first_cover_from(lines, p, i);
            &&& i <= f < lines.len()
            &&& covers_at(lines[f], p)
            &&& forall|k: int| i <= k < f ==> !covers_at(#[trigger] lines[k], p)
        }),
    decreases lines.len() - i,
{
    let j = choose|j: int| i <= j < lines.len() && covers_at(#[trigger] lines[j], p);
    if !covers_at(lines[i], p) {
        assert(i + 1 <= j < lines.len() && covers_at(lines[j], p));
        lemma_first_cover_covers_from(lines, p, i + 1);
    }
}

/// If slot `j` covers `p` and no earlier slot does, the scan finds `j`.
proof fn lemma_first_cover_from(lines: Seq<Option<LineModel>>, p: int, i: int, j: int)
    requires
        0 <= i <= j < lines.len(),
        covers_at(lines[j], p),
        forall|k: int| i <= k < j ==> !covers_at(#[trigger] lines[k], p),
    ensures
        first_cover_from(lines, p, i) == j,
    decreases j - i,
{
    if i < j {
        lemma_first_cover_from(lines, p, i + 1, j);
    }
}

/// The slot holding the least-recently-used line: `victim` of the lines'
/// model, which no slot undercuts and every earlier slot strictly exceeds.
#[verifier::loop_isolation(false)]
fn next_free<T>(lines: &Vec<Option<Line64<T>>>) -> (k: usize)
    requires
        lines@.len() == 4,
    ensures
        k < 4,
        k as int == victim(models_of(lines@)),
        forall|j: int|
            0 <= j < 4 ==> slot_key(models_of(lines@)[k as int]) <= slot_key(
                #[trigger] models_of(lines@)[j],
            ),
        forall|j: int|
            0 <= j < k ==> slot_key(#[trigger] models_of(lines@)[j]) > slot_key(
                models_of(lines@)[k as int],
            ),
{
    let ghost m = models_of(lines@);
    proof {
        assert(m.len() == 4);
    }
    let mut best: usize = 0;
    let mut best_key: usize = match &lines[0] {
        None => 0,
        Some(line) => line.last_use,
    };
    let mut j: usize = 1;
    while j < 4
        invariant
            1 <= j <= 4,
            best < j,
            best_key == slot_key(m[best as int]),
            victim(m) == victim_from(m, best as int, j as int),
            forall|i: int| 0 <= i < j ==> best_key <= slot_key(#[trigger] m[i]),
            forall|i: int| 0 <= i < best ==> slot_key(#[trigger] m[i]) > best_key,
        decreases 4 - j,
    {
        let kj = match &lines[j] {
            None => 0,
            Some(line) => line.last_use,
        };
        proof {
            assert(kj == slot_key(m[j as int]));
        }
        if kj < best_key {
            best = j;
            best_key = kj;
        }
        j = j + 1;
    }
    best
}

/// A 4-line, 64-words-per-line, least-recently-used instruction cache over a
/// block loader. Fetches hit a resident line when one covers the address;
/// otherwise the least-recently-used line is evicted and the loader is asked
/// for the 64-word block covering the address.
pub struct LRU4x64<T, L: Backing<T>> {
    counter: usize,
    lines: Vec<Option<Line64<T>>>,
    loader: L,
}

impl<T, L: Backing<T>> Backing<T> for LRU4x64<T, L> {
    closed spec fn contents(&self) -> Seq<T> {
        self.loader.contents()
    }

    closed spec fn inv(&self) -> bool {
        self.wf() && self.loader.inv()
    }
}

impl<T, L: Backing<T>> LRU4x64<T, L> {
    /// Every resident line mirrors the loader's contents.
    spec fn wf(&self) -> bool {
        &&& self.lines@.len() == 4
        &&& forall|i: int|
            0 <= i < 4 ==> (#[trigger] self.lines@[i] matches Some(line) ==> line.line_ok(
                self.loader.contents(),
            ))
    }

    /// The four lines as seen from outside: place, extent and recency of
    /// each slot.
    pub closed spec fn lines_model(&self) -> Seq<Option<LineModel>> {
        models_of(self.lines@)
    }

    /// The recency clock: it advances on every fetch, saturating at the top
    /// of `usize` rather than wrapping.
    pub closed spec fn clock(&self) -> usize {
        self.counter
    }

    /// The loader beneath the cache, as a value: a fetch answered from a
    /// resident line leaves it untouched.
    pub closed spec fn loader_model(&self) -> L {
        self.loader
    }

    /// Whether some resident line covers address `p`: a fetch of `p` in this
    /// state would be answered without consulting the loader.
    pub open spec fn spec_covers(&self, p: int) -> bool {
        model_covers(self.lines_model(), p)
    }

    /// A fresh cache over `loader`: all four lines empty, the clock at zero.
    pub fn new(loader: L) -> (c: Self)
        requires
            loader.inv(),
        ensures
            c.inv(),
            c.contents() == loader.contents(),
            c.lines_model() =~= seq![None, None, None, None],
            c.clock() == 0,
            c.loader_model() == loader,
            forall|p: int| !c.spec_covers(p),
    {
        let mut lines: Vec<Option<Line64<T>>> = Vec::new();
        lines.push(None);
        lines.push(None);
        lines.push(None);
        lines.push(None);
        let c = LRU4x64 { counter: 0, lines, loader };
        proof {
            assert(forall|i: int| 0 <= i < 4 ==> #[trigger] c.lines_model()[i] is None);
            assert forall|p: int| !c.spec_covers(p) by {
                assert(forall|i: int|
                    0 <= i < c.lines_model().len() ==> !covers_at(
                        #[trigger] c.lines_model()[i],
                        p,
                    ));
            }
        }
        c
    }

    /// Whether the cache would answer a fetch of `ptr` from a resident line,
    /// without a loader call.
    pub fn resident<Ptr: Addr>(&self, ptr: Ptr) -> (r: bool)
        requires
            self.inv(),
        ensures
            r == self.spec_covers(ptr.sp_val()),
    {
        proof {
            Ptr::lemma_fits(ptr);
        }
        let p = ptr.to_usize();
        let mut j: usize = 0;
        let mut found = false;
        while j < 4
            invariant
                j <= 4,
                self.lines@.len() == 4,
                found == exists|i: int|
                    0 <= i < j && covers_at(#[trigger] self.lines_model()[i], p as int),
            decreases 4 - j,
        {
            match &self.lines[j] {
                Some(line) => {
                    if p >= line.loc && p - line.loc < line.length {
                        found = true;
                        proof {
                            assert(covers_at(self.lines_model()[j as int], p as int));
                        }
                    } else {
                        proof {
                            assert(!covers_at(self.lines_model()[j as int], p as int));
                        }
                    }
                },
                None => {
                    proof {
                        assert(!covers_at(self.lines_model()[j as int], p as int));
                    }
                },
            }
            j = j + 1;
        }
        proof {
            assert(self.lines_model().len() == 4);
        }
        found
    }
}

/// The words from `x/64*64` form the 64-word block around `x`.
proof fn lemma_block_bounds(x: int)
    by (nonlinear_arith)
    requires
        x >= 0,
    ensures
        (x / 64) * 64 <= x < (x / 64) * 64 + 64,
{
}

impl<Ptr: Addr, T: Copy, L: Load64<Ptr, T>> Fetcher<Ptr, T> for LRU4x64<T, L> {
    /// Beyond the fetcher contract, the eviction policy itself. A fetch of a
    /// covered address is a hit: the loader is left untouched and the one
    /// change among the lines is the first covering slot's recency, stamped
    /// with the new clock. A miss whose block starts past the contents
    /// changes no line. Any other miss evicts the victim slot — the least
    /// recency, an empty slot counting 0, ties to the lowest slot — and
    /// installs the loaded block there, stamped with the new clock.
    #[verifier::loop_isolation(false)]
    fn fetch(&mut self, ptr: Ptr) -> (r: Option<T>)
        ensures
            ({
                let p = ptr.sp_val();
                let before = old(self).lines_model();
                let after = final(self).lines_model();
                let clock2 = final(self).clock();
                let start = (p / 64) * 64;
                let s = old(self).contents();
                &&& before.len() == 4
                &&& clock2 == (if old(self).clock() < usize::MAX {
                    (old(self).clock() + 1) as usize
                } else {
                    old(self).clock()
                })
                &&& (model_covers(before, p) ==> {
                    let i = first_cover_from(before, p, 0);
                    &&& final(self).loader_model() == old(self).loader_model()
                    &&& (before[i] matches Some(lm) && after == before.update(
                        i,
                        Some(LineModel { loc: lm.loc, length: lm.length, last_use: clock2 }),
                    ))
                })
                &&& (!model_covers(before, p) && start >= s.len() ==> after == before)
                &&& (!model_covers(before, p) && start < s.len() ==> after == before.update(
                    victim(before),
                    Some(
                        LineModel {
                            loc: start as usize,
                            length: (if s.len() - start < 64 {
                                s.len() - start
                            } else {
                                64
                            }) as usize,
                            last_use: clock2,
                        },
                    ),
                ))
            }),
    {
        proof {
            Ptr::lemma_fits(ptr);
            Ptr::lemma_block6(ptr);
            lemma_block_bounds(ptr.sp_val());
        }
        let ghost s = self.loader.contents();
        let ghost before = self.lines_model();
        if self.counter < usize::MAX {
            self.counter = self.counter + 1;
        }
        let counter = self.counter;
        let p = ptr.to_usize();
        let mut j: usize = 0;
        while j < 4
            invariant
                j <= 4,
                self.lines@.len() == 4,
                self.loader == old(self).loader,
                self.counter == counter,
                self.lines@ == old(self).lines@,
                before == models_of(old(self).lines@),
                forall|i: int|
                    0 <= i < 4 ==> (#[trigger] self.lines@[i] matches Some(line)
                        ==> line.line_ok(s)),
                forall|i: int| 0 <= i < j ==> !covers_at(#[trigger] before[i], p as int),
            decreases 4 - j,
        {
            let ghost pre = self.lines@;
            let hit: Option<T> = match &mut self.lines[j] {
                Some(line) => line.get_and_set(p, counter),
                None => None,
            };
            if let Some(t) = hit {
                proof {
                    assert(covers_at(before[j as int], p as int));
                    lemma_first_cover_from(before, p as int, 0, j as int);
                    let lm = before[j as int].unwrap();
                    assert(self.lines_model() =~= before.update(
                        j as int,
                        Some(LineModel { loc: lm.loc, length: lm.length, last_use: counter }),
                    ));
                }
                return Some(t);
            }
            proof {
                assert(self.lines@ =~= pre);
                assert(!covers_at(before[j as int], p as int));
            }
            j = j + 1;
        }
        proof {
            assert(before.len() == 4);
            assert(!model_covers(before, p as int)) by {
                assert(forall|i: int|
                    0 <= i < before.len() ==> !covers_at(#[trigger] before[i], p as int));
            }
        }
        let free = next_free(&self.lines);
        let block_ptr = ptr.shr(6);
        let last_use = counter;
        match self.loader.load(block_ptr) {
            None => {
                proof {
                    assert(self.lines_model() =~= before);
                }
                None
            },
            Some((values, length)) => {
                let loc_w = block_ptr.shl(6);
                proof {
                    Ptr::lemma_fits(loc_w);
                }
                let loc = loc_w.to_usize();
                let line = Line64 { last_use, length, loc, values };
                let result = line.get(p);
                self.lines[free] = Some(line);
                proof {
                    assert(self.lines_model() =~= before.update(
                        free as int,
                        Some(LineModel { loc, length, last_use: counter }),
                    ));
                }
                result
            },
        }
    }
}

} // verus!
