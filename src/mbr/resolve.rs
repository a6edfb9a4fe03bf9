//! Turns an ordered list of partition requests into concrete, numbered block ranges.
//!
//! Boundaries are resolved by repeated passes over the list: a pass fixes every request
//! whose referenced boundaries are already fixed. After as many passes as there are
//! requests, whatever is still open lies on, or depends on, a cycle of references.
use vstd::prelude::*;
use super::{LocSpec, MbrBuilderError, MbrPart, MbrPartSpec, NumSpec, PartRef, PartSpec};

verus! {

/// The most requests that one table takes.
pub const MAX_PARTITIONS: usize = 128;

/// The constraint of each kind in one request, and whether two constraints of one kind
/// differ.
#[derive(Clone, Copy, PartialEq, Eq, Structural, Debug)]
pub struct Req {
    pub start: Option<LocSpec>,
    pub end: Option<LocSpec>,
    pub number: Option<u32>,
    pub bootable: bool,
    pub conflict: bool,
}

/// The constraints of a request. A constraint given twice with the same value counts once;
/// two different ones of one kind set `conflict`.
pub open spec fn req_of(s: Seq<PartSpec>) -> Req
    decreases s.len(),
{
    if s.len() == 0 {
        Req { start: None, end: None, number: None, bootable: false, conflict: false }
    } else {
        let r = req_of(s.drop_last());
        match s.last() {
            PartSpec::Number(NumSpec::Exact(n)) => Req {
                number: if r.number is None {
                    Some(n)
                } else {
                    r.number
                },
                conflict: r.conflict || (r.number is Some && r.number != Some(n)),
                ..r
            },
            PartSpec::Start(l) => Req {
                start: if r.start is None {
                    Some(l)
                } else {
                    r.start
                },
                conflict: r.conflict || (r.start is Some && r.start != Some(l)),
                ..r
            },
            PartSpec::End(l) => Req {
                end: if r.end is None {
                    Some(l)
                } else {
                    r.end
                },
                conflict: r.conflict || (r.end is Some && r.end != Some(l)),
                ..r
            },
            PartSpec::IsBootable => Req { bootable: true, ..r },
        }
    }
}

/// Position that `r` names from position `i`.
pub open spec fn target(i: int, r: PartRef) -> int {
    match r {
        PartRef::Previous(k) => i - k,
        PartRef::Next(k) => i + k,
        PartRef::Exact(k) => k as int,
    }
}

/// `l`, given at position `i` of a list of `n`, names no position outside the list.
pub open spec fn loc_in_range(i: int, l: LocSpec, n: int) -> bool {
    match l {
        LocSpec::AtEndOf(r) => 0 <= target(i, r) < n,
        LocSpec::AtStartOf(r) => 0 <= target(i, r) < n,
        LocSpec::Block(_) => true,
    }
}

/// The boundaries of request `i` name only positions in the list.
pub open spec fn req_refs_ok(reqs: Seq<Req>, i: int) -> bool {
    &&& (reqs[i].start matches Some(l) ==> loc_in_range(i, l, reqs.len() as int))
    &&& (reqs[i].end matches Some(l) ==> loc_in_range(i, l, reqs.len() as int))
}

pub open spec fn refs_ok(reqs: Seq<Req>) -> bool {
    forall|i: int| 0 <= i < reqs.len() ==> #[trigger] req_refs_ok(reqs, i)
}

/// The value of boundary `l` of request `i`, where what it refers to is known.
pub open spec fn loc_value(vals: Seq<Option<(u64, u64)>>, i: int, l: LocSpec) -> Option<u64> {
    match l {
        LocSpec::Block(b) => Some(b),
        LocSpec::AtStartOf(r) => match vals[target(i, r)] {
            Some(p) => Some(p.0),
            None => None,
        },
        LocSpec::AtEndOf(r) => match vals[target(i, r)] {
            Some(p) => Some(p.1),
            None => None,
        },
    }
}

pub open spec fn start_value(reqs: Seq<Req>, vals: Seq<Option<(u64, u64)>>, i: int) -> Option<
    u64,
> {
    match reqs[i].start {
        Some(l) => loc_value(vals, i, l),
        None => if i == 0 {
            // No anchor at all; reported once cycles are ruled out.
            Some(0)
        } else {
            match vals[i - 1] {
                Some(p) => Some(p.1),
                None => None,
            }
        },
    }
}

/// A request without an end reaches `dev_end`, the end of the device.
pub open spec fn end_value(reqs: Seq<Req>, vals: Seq<Option<(u64, u64)>>, i: int, dev_end: u64) -> Option<u64> {
    match reqs[i].end {
        Some(l) => loc_value(vals, i, l),
        None => Some(dev_end),
    }
}

/// Position that boundary `l` of request `i` refers to; `i` itself for a block address.
pub open spec fn loc_target(i: int, l: LocSpec) -> int {
    match l {
        LocSpec::AtEndOf(r) => target(i, r),
        LocSpec::AtStartOf(r) => target(i, r),
        LocSpec::Block(_) => i,
    }
}

/// For a request `i` still open after the passes, a request it waits on: the one its start
/// refers to if that is open, else the one before it for a request without a start, else
/// the one its end refers to.
pub open spec fn open_dependency(reqs: Seq<Req>, vals: Seq<Option<(u64, u64)>>, i: int) -> int {
    if reqs[i].start is Some && loc_value(vals, i, reqs[i].start->0) is None {
        loc_target(i, reqs[i].start->0)
    } else if reqs[i].start is None && i > 0 && vals[i - 1] is None {
        i - 1
    } else if reqs[i].end is Some {
        loc_target(i, reqs[i].end->0)
    } else {
        i
    }
}

/// Request `i` after following `k` open dependencies from it. Started at the lowest open
/// request, as many steps as there are requests end on a cycle of open requests.
pub open spec fn follow_open(reqs: Seq<Req>, vals: Seq<Option<(u64, u64)>>, i: int, k: nat) -> int
    decreases k,
{
    if k == 0 {
        i
    } else {
        open_dependency(reqs, vals, follow_open(reqs, vals, i, (k - 1) as nat))
    }
}

fn loc_target_of(i: usize, l: LocSpec) -> (t: usize)
    requires
        0 <= loc_target(i as int, l) <= usize::MAX,
    ensures
        t == loc_target(i as int, l),
{
    match l {
        LocSpec::AtEndOf(p) => ref_target(i, p),
        LocSpec::AtStartOf(p) => ref_target(i, p),
        LocSpec::Block(_) => i,
    }
}

fn dependency_of_open(reqs: &Vec<Req>, vals: &Vec<Option<(u64, u64)>>, i: usize) -> (r: usize)
    requires
        i < reqs@.len() == vals@.len() <= MAX_PARTITIONS,
        req_refs_ok(reqs@, i as int),
    ensures
        r == open_dependency(reqs@, vals@, i as int),
        r < reqs@.len(),
{
    if let Some(l) = reqs[i].start {
        if value_of(vals, i, l).is_none() {
            return loc_target_of(i, l);
        }
    } else if i > 0 && vals[i - 1].is_none() {
        return i - 1;
    }
    match reqs[i].end {
        Some(l) => loc_target_of(i, l),
        None => i,
    }
}

/// One pass: each open request whose boundaries can be computed from `vals` is fixed.
pub open spec fn pass(reqs: Seq<Req>, vals: Seq<Option<(u64, u64)>>, dev_end: u64) -> Seq<
    Option<(u64, u64)>,
> {
    Seq::new(
        reqs.len(),
        |i: int|
            if vals[i] is Some {
                vals[i]
            } else {
                match (start_value(reqs, vals, i), end_value(reqs, vals, i, dev_end)) {
                    (Some(s), Some(e)) => Some((s, e)),
                    _ => None,
                }
            },
    )
}

/// The boundaries known after `k` passes.
pub open spec fn passes(reqs: Seq<Req>, k: nat, dev_end: u64) -> Seq<Option<(u64, u64)>>
    decreases k,
{
    if k == 0 {
        Seq::new(reqs.len(), |i: int| None)
    } else {
        pass(reqs, passes(reqs, (k - 1) as nat, dev_end), dev_end)
    }
}

/// Collects the constraint of each kind, noting differing ones.
pub fn requirements(s: &MbrPartSpec) -> (r: Req)
    ensures
        r == req_of(s.specs@),
{
    let mut r = Req { start: None, end: None, number: None, bootable: false, conflict: false };
    let mut i: usize = 0;
    while i < s.specs.len()
        invariant
            i <= s.specs@.len(),
            r == req_of(s.specs@.subrange(0, i as int)),
        decreases s.specs@.len() - i,
    {
        let ghost pre = s.specs@.subrange(0, i as int);
        assert(s.specs@.subrange(0, i + 1).drop_last() =~= pre);
        match s.specs[i] {
            PartSpec::Number(NumSpec::Exact(n)) => {
                match r.number {
                    None => {
                        r.number = Some(n);
                    },
                    Some(m) => {
                        if m != n {
                            r.conflict = true;
                        }
                    },
                }
            },
            PartSpec::Start(l) => {
                match r.start {
                    None => {
                        r.start = Some(l);
                    },
                    Some(m) => {
                        if m != l {
                            r.conflict = true;
                        }
                    },
                }
            },
            PartSpec::End(l) => {
                match r.end {
                    None => {
                        r.end = Some(l);
                    },
                    Some(m) => {
                        if m != l {
                            r.conflict = true;
                        }
                    },
                }
            },
            PartSpec::IsBootable => {
                r.bootable = true;
            },
        }
        i = i + 1;
    }
    assert(s.specs@.subrange(0, s.specs@.len() as int) =~= s.specs@);
    r
}

fn loc_check(i: usize, l: LocSpec, n: usize) -> (r: bool)
    requires
        n <= MAX_PARTITIONS,
        i < n,
    ensures
        r == loc_in_range(i as int, l, n as int),
{
    let t = match l {
        LocSpec::AtEndOf(p) => p,
        LocSpec::AtStartOf(p) => p,
        LocSpec::Block(_) => {
            return true;
        },
    };
    match t {
        PartRef::Previous(k) => k as usize <= i,
        PartRef::Next(k) => (k as usize) < n - i,
        PartRef::Exact(k) => (k as usize) < n,
    }
}

proof fn lemma_req_of_members(s: Seq<PartSpec>)
    ensures
        req_of(s).start matches Some(l) ==> exists|k: int|
            0 <= k < s.len() && s[k] == PartSpec::Start(l),
        req_of(s).end matches Some(l) ==> exists|k: int| 0 <= k < s.len() && s[k] == PartSpec::End(l),
    decreases s.len(),
{
    if s.len() > 0 {
        let t = s.drop_last();
        lemma_req_of_members(t);
        if let Some(l) = req_of(t).start {
            let k = choose|k: int| 0 <= k < t.len() && t[k] == PartSpec::Start(l);
            assert(s[k] == PartSpec::Start(l));
        }
        if let Some(l) = req_of(t).end {
            let k = choose|k: int| 0 <= k < t.len() && t[k] == PartSpec::End(l);
            assert(s[k] == PartSpec::End(l));
        }
        assert(s[s.len() - 1] == s.last());
    }
}

/// The first request with a Start or End constraint that names a position outside the
/// list, if any.
fn check_spec_refs(specs: &Vec<MbrPartSpec>) -> (r: Option<usize>)
    requires
        specs@.len() <= MAX_PARTITIONS,
    ensures
        match r {
            Some(i) => first_from(bad_ref_at(lists_of(specs@)), 0, specs@.len() as int) == Some(
                i as int,
            ),
            None => first_from(bad_ref_at(lists_of(specs@)), 0, specs@.len() as int) is None,
        },
{
    let ghost lists = lists_of(specs@);
    let n = specs.len();
    let mut i: usize = 0;
    while i < n
        invariant
            n == specs@.len() <= MAX_PARTITIONS,
            lists == lists_of(specs@),
            i <= n,
            forall|j: int| 0 <= j < i ==> !#[trigger] bad_ref_at(lists)(j),
        decreases n - i,
    {
        let list = &specs[i].specs;
        assert(list@ == lists[i as int]);
        let mut k: usize = 0;
        while k < list.len()
            invariant
                n == specs@.len() <= MAX_PARTITIONS,
                i < n,
                list@ == lists[i as int],
                lists == lists_of(specs@),
                lists.len() == n,
                forall|j: int| 0 <= j < i ==> !#[trigger] bad_ref_at(lists)(j),
                k <= list@.len(),
                forall|m: int| 0 <= m < k ==> part_spec_in_range(#[trigger] list@[m], i as int, n as int),
            decreases list@.len() - k,
        {
            let ok = match list[k] {
                PartSpec::Start(l) => loc_check(i, l, n),
                PartSpec::End(l) => loc_check(i, l, n),
                _ => true,
            };
            if !ok {
                proof {
                    assert(!part_spec_in_range(lists[i as int][k as int], i as int, n as int));
                    assert(bad_ref_at(lists)(i as int));
                    lemma_first_from_some(bad_ref_at(lists), 0, n as int, i as int);
                }
                return Some(i);
            }
            k = k + 1;
        }
        assert(!bad_ref_at(lists)(i as int));
        i = i + 1;
    }
    proof {
        lemma_first_from_none(bad_ref_at(lists), 0, n as int);
    }
    None
}

fn first_conflict(reqs: &Vec<Req>) -> (r: Option<usize>)
    ensures
        match r {
            Some(i) => first_from(conflict_at(reqs@), 0, reqs@.len() as int) == Some(i as int),
            None => first_from(conflict_at(reqs@), 0, reqs@.len() as int) is None,
        },
{
    let n = reqs.len();
    let mut i: usize = 0;
    while i < n
        invariant
            n == reqs@.len(),
            i <= n,
            forall|j: int| 0 <= j < i ==> !#[trigger] conflict_at(reqs@)(j),
        decreases n - i,
    {
        if reqs[i].conflict {
            proof {
                lemma_first_from_some(conflict_at(reqs@), 0, n as int, i as int);
            }
            return Some(i);
        }
        i = i + 1;
    }
    proof {
        lemma_first_from_none(conflict_at(reqs@), 0, n as int);
    }
    None
}

fn value_of(vals: &Vec<Option<(u64, u64)>>, i: usize, l: LocSpec) -> (r: Option<u64>)
    requires
        loc_in_range(i as int, l, vals@.len() as int),
        vals@.len() <= MAX_PARTITIONS,
    ensures
        r == loc_value(vals@, i as int, l),
{
    match l {
        LocSpec::Block(b) => Some(b),
        LocSpec::AtStartOf(p) => {
            let t = ref_target(i, p);
            match vals[t] {
                Some(v) => Some(v.0),
                None => None,
            }
        },
        LocSpec::AtEndOf(p) => {
            let t = ref_target(i, p);
            match vals[t] {
                Some(v) => Some(v.1),
                None => None,
            }
        },
    }
}

fn ref_target(i: usize, p: PartRef) -> (t: usize)
    requires
        0 <= target(i as int, p) <= usize::MAX,
    ensures
        t == target(i as int, p),
{
    match p {
        PartRef::Previous(k) => i - k as usize,
        PartRef::Next(k) => i + k as usize,
        PartRef::Exact(k) => k as usize,
    }
}

fn run_pass(reqs: &Vec<Req>, vals: &Vec<Option<(u64, u64)>>, dev_end: u64) -> (r: Vec<
    Option<(u64, u64)>,
>)
    requires
        refs_ok(reqs@),
        vals@.len() == reqs@.len() <= MAX_PARTITIONS,
    ensures
        r@ == pass(reqs@, vals@, dev_end),
{
    let n = reqs.len();
    let mut out: Vec<Option<(u64, u64)>> = Vec::new();
    let mut i: usize = 0;
    while i < n
        invariant
            n == reqs@.len() == vals@.len() <= MAX_PARTITIONS,
            refs_ok(reqs@),
            i <= n,
            out@.len() == i,
            forall|j: int| 0 <= j < i ==> out@[j] == pass(reqs@, vals@, dev_end)[j],
        decreases n - i,
    {
        assert(req_refs_ok(reqs@, i as int));
        if vals[i].is_some() {
            out.push(vals[i]);
        } else {
            let s = match reqs[i].start {
                Some(l) => value_of(vals, i, l),
                None => if i == 0 {
                    Some(0)
                } else {
                    match vals[i - 1] {
                        Some(v) => Some(v.1),
                        None => None,
                    }
                },
            };
            let e = match reqs[i].end {
                Some(l) => value_of(vals, i, l),
                None => Some(dev_end),
            };
            match (s, e) {
                (Some(s), Some(e)) => out.push(Some((s, e))),
                _ => out.push(None),
            }
        }
        i = i + 1;
    }
    assert(out@ =~= pass(reqs@, vals@, dev_end));
    out
}

/// The boundaries of every request after as many passes as there are requests.
fn boundaries(reqs: &Vec<Req>, dev_end: u64) -> (r: Vec<Option<(u64, u64)>>)
    requires
        refs_ok(reqs@),
        reqs@.len() <= MAX_PARTITIONS,
    ensures
        r@ == passes(reqs@, reqs@.len(), dev_end),
        r@.len() == reqs@.len(),
{
    let n = reqs.len();
    let mut vals: Vec<Option<(u64, u64)>> = Vec::new();
    let mut i: usize = 0;
    while i < n
        invariant
            n == reqs@.len(),
            i <= n,
            vals@ == Seq::new(i as nat, |j: int| None::<(u64, u64)>),
        decreases n - i,
    {
        vals.push(None);
        i = i + 1;
        assert(vals@ =~= Seq::new(i as nat, |j: int| None::<(u64, u64)>));
    }
    assert(vals@ =~= passes(reqs@, 0, dev_end));
    let mut k: usize = 0;
    while k < n
        invariant
            n == reqs@.len() <= MAX_PARTITIONS,
            refs_ok(reqs@),
            k <= n,
            vals@ == passes(reqs@, k as nat, dev_end),
            vals@.len() == n,
        decreases n - k,
    {
        vals = run_pass(reqs, &vals, dev_end);
        k = k + 1;
    }
    vals
}

/// The first position in `[i, n)` where `p` holds.
pub open spec fn first_from(p: spec_fn(int) -> bool, i: int, n: int) -> Option<int>
    decreases n - i,
{
    if i >= n {
        None
    } else if p(i) {
        Some(i)
    } else {
        first_from(p, i + 1, n)
    }
}

/// The first pair `i < j` of positions below `n`, in lexicographic order, where `q` holds.
pub open spec fn first_pair(q: spec_fn(int, int) -> bool, n: int) -> Option<(int, int)> {
    match first_from(|i: int| first_from(|j: int| q(i, j), i + 1, n) is Some, 0, n) {
        Some(i) => Some((i, first_from(|j: int| q(i, j), i + 1, n)->0)),
        None => None,
    }
}

/// Ranges `[a.0, a.1)` and `[b.0, b.1)` share a block.
pub open spec fn overlaps(a: (u64, u64), b: (u64, u64)) -> bool {
    a.0 < b.1 && b.0 < a.1
}

/// The last block address (exclusive) that a partition may reach: the device's end, and
/// no further than 32-bit LBA fields can describe.
pub open spec fn limit(blocks: u64) -> u64 {
    if blocks < 0xffff_ffff {
        blocks
    } else {
        0xffff_ffff
    }
}

/// Range `v` is empty, takes block 0 (the MBR's own sector) or reaches past
/// `limit(blocks)`.
pub open spec fn bad_range(v: (u64, u64), blocks: u64) -> bool {
    v.0 >= v.1 || v.0 == 0 || v.1 > limit(blocks)
}

/// Some request asks for number `c`.
pub open spec fn claimed(reqs: Seq<Req>, c: int) -> bool {
    exists|i: int| 0 <= i < reqs.len() && reqs[i].number == Some(c as u32) && c <= u32::MAX
}

/// The first number from `c` on that no request asks for.
pub open spec fn skip_claimed(reqs: Seq<Req>, c: int, fuel: nat) -> int
    decreases fuel,
{
    if fuel > 0 && claimed(reqs, c) {
        skip_claimed(reqs, c + 1, (fuel - 1) as nat)
    } else {
        c
    }
}

/// The number of primary slots (0 to 3) that no request asks for.
pub open spec fn free_primaries(reqs: Seq<Req>) -> int {
    (if claimed(reqs, 0) { 0int } else { 1int }) + (if claimed(reqs, 1) { 0int } else { 1int }) + (
    if claimed(reqs, 2) { 0int } else { 1int }) + (if claimed(reqs, 3) { 0int } else { 1int })
}

/// The number of requests among the first `i` that ask for no number.
pub open spec fn unnumbered(reqs: Seq<Req>, i: int) -> int
    decreases i,
{
    if i <= 0 {
        0
    } else {
        unnumbered(reqs, i - 1) + if reqs[i - 1].number is None {
            1int
        } else {
            0int
        }
    }
}

/// The request asks for a logical partition number.
pub open spec fn is_logical_request(r: Req) -> bool {
    r.number is Some && r.number->0 >= 4
}

/// Some partition has to be logical, so an extended container is needed.
pub open spec fn needs_container(reqs: Seq<Req>) -> bool {
    (exists|i: int| 0 <= i < reqs.len() && is_logical_request(#[trigger] reqs[i]))
        || unnumbered(reqs, reqs.len() as int) > free_primaries(reqs)
}

/// How many requests without a number become primary partitions: all free slots, but one
/// kept for the container where one is needed.
pub open spec fn primary_budget(reqs: Seq<Req>) -> int {
    if needs_container(reqs) {
        free_primaries(reqs) - 1
    } else {
        free_primaries(reqs)
    }
}

/// Numbering of the first `i` requests, in input order: `(numbers, next primary candidate,
/// next logical candidate)`. A request with a number keeps it; one without takes the lowest
/// primary number that nobody asked for and nobody before took, while the budget lasts, and
/// after that the lowest such logical number (from 4 on).
pub open spec fn numbering(reqs: Seq<Req>, i: int) -> (Seq<u32>, int, int)
    decreases i,
{
    if i <= 0 {
        (Seq::empty(), 0, 4)
    } else {
        let (ns, p, q) = numbering(reqs, i - 1);
        match reqs[i - 1].number {
            Some(k) => (ns.push(k), p, q),
            None => if unnumbered(reqs, i - 1) < primary_budget(reqs) {
                let c = skip_claimed(reqs, p, reqs.len());
                (ns.push(c as u32), c + 1, q)
            } else {
                let c = skip_claimed(reqs, q, reqs.len());
                (ns.push(c as u32), p, c + 1)
            },
        }
    }
}

/// The number of the extended container: the lowest primary number left.
pub open spec fn container_number(reqs: Seq<Req>) -> int {
    skip_claimed(reqs, numbering(reqs, reqs.len() as int).1, reqs.len())
}

proof fn lemma_skip_claimed_bound(reqs: Seq<Req>, c: int, fuel: nat)
    ensures
        c <= skip_claimed(reqs, c, fuel) <= c + fuel,
    decreases fuel,
{
    if fuel > 0 && claimed(reqs, c) {
        lemma_skip_claimed_bound(reqs, c + 1, (fuel - 1) as nat);
    }
}

/// The requests' constraints, in input order.
pub open spec fn reqs_of(specs: Seq<MbrPartSpec>) -> Seq<Req> {
    Seq::new(specs.len(), |i: int| req_of(specs[i].specs@))
}

/// The range of request `i`, once it is known.
pub open spec fn range_at(vals: Seq<Option<(u64, u64)>>, i: int) -> (u64, u64) {
    vals[i]->0
}

/// Constraint `p` of request `i`, in a list of `n`, names no position outside the list.
pub open spec fn part_spec_in_range(p: PartSpec, i: int, n: int) -> bool {
    match p {
        PartSpec::Start(l) => loc_in_range(i, l, n),
        PartSpec::End(l) => loc_in_range(i, l, n),
        _ => true,
    }
}

/// The constraint lists of the requests, in input order.
pub open spec fn lists_of(specs: Seq<MbrPartSpec>) -> Seq<Seq<PartSpec>> {
    Seq::new(specs.len(), |i: int| specs[i].specs@)
}

/// Some Start or End constraint of request `i` names a position outside the list.
pub open spec fn bad_ref_at(lists: Seq<Seq<PartSpec>>) -> spec_fn(int) -> bool {
    |i: int|
        !(forall|k: int|
            0 <= k < lists[i].len() ==> part_spec_in_range(
                #[trigger] lists[i][k],
                i,
                lists.len() as int,
            ))
}

/// Request `i` holds two different constraints of one kind.
pub open spec fn conflict_at(reqs: Seq<Req>) -> spec_fn(int) -> bool {
    |i: int| reqs[i].conflict
}

pub open spec fn open_at(vals: Seq<Option<(u64, u64)>>) -> spec_fn(int) -> bool {
    |i: int| vals[i] is None
}

pub open spec fn bad_range_at(vals: Seq<Option<(u64, u64)>>, blocks: u64) -> spec_fn(int) -> bool {
    |i: int| bad_range(vals[i]->0, blocks)
}

pub open spec fn overlap_at(vals: Seq<Option<(u64, u64)>>) -> spec_fn(int, int) -> bool {
    |i: int, j: int| overlaps(vals[i]->0, vals[j]->0)
}

pub open spec fn bootable_at(reqs: Seq<Req>) -> spec_fn(int) -> bool {
    |i: int| reqs[i].bootable
}

pub open spec fn same_number_at(reqs: Seq<Req>) -> spec_fn(int, int) -> bool {
    |i: int, j: int| reqs[i].number is Some && reqs[i].number == reqs[j].number
}

/// The resolved partitions, in input order.
pub open spec fn parts_of(vals: Seq<Option<(u64, u64)>>, nums: Seq<u32>) -> Seq<MbrPart> {
    Seq::new(
        vals.len(),
        |i: int| MbrPart { number: nums[i], start: range_at(vals, i).0, end: range_at(vals, i).1 },
    )
}

/// The smallest range holding the logical partitions among the first `i`.
pub open spec fn logical_span(parts: Seq<MbrPart>, i: int) -> Option<(u64, u64)>
    decreases i,
{
    if i <= 0 {
        None
    } else {
        let s = logical_span(parts, i - 1);
        let p = parts[i - 1];
        if p.number >= 4 {
            match s {
                None => Some((p.start, p.end)),
                Some(r) => Some(
                    (
                        if p.start < r.0 {
                            p.start
                        } else {
                            r.0
                        },
                        if p.end > r.1 {
                            p.end
                        } else {
                            r.1
                        },
                    ),
                ),
            }
        } else {
            s
        }
    }
}

/// Positions of the logical partitions among the first `i`, in input order: the order of
/// the EBR chain.
pub open spec fn logical_positions(parts: Seq<MbrPart>, i: int) -> Seq<int>
    decreases i,
{
    if i <= 0 {
        Seq::empty()
    } else if parts[i - 1].number >= 4 {
        logical_positions(parts, i - 1).push(i - 1)
    } else {
        logical_positions(parts, i - 1)
    }
}

/// The first logical partition among the first `i`: the head of the EBR chain.
pub open spec fn first_logical(parts: Seq<MbrPart>, i: int) -> Option<int>
    decreases i,
{
    if i <= 0 {
        None
    } else {
        match first_logical(parts, i - 1) {
            Some(j) => Some(j),
            None => if parts[i - 1].number >= 4 {
                Some(i - 1)
            } else {
                None
            },
        }
    }
}

proof fn lemma_first_logical(parts: Seq<MbrPart>, i: int)
    requires
        0 <= i <= parts.len(),
    ensures
        (first_logical(parts, i) is Some) == (logical_span(parts, i) is Some),
        (first_logical(parts, i) is Some) == (logical_positions(parts, i).len() > 0),
        first_logical(parts, i) matches Some(j) ==> logical_positions(parts, i)[0] == j && 0 <= j
            < i && parts[j].number >= 4,
    decreases i,
{
    if i > 0 {
        lemma_first_logical(parts, i - 1);
    }
}

/// The container fits: it has a primary slot and a non-empty range, no primary partition
/// shares a block with it, the head of the chain has the lowest start of the logical
/// partitions, and each logical partition has room for its extended boot record and at
/// least one block.
pub open spec fn chain_ok(parts: Seq<MbrPart>, c: MbrPart, number: int) -> bool {
    &&& number < 4
    &&& c.start < c.end
    &&& forall|i: int|
        0 <= i < parts.len() ==> {
            &&& ((#[trigger] parts[i]).number < 4 ==> !overlaps(
                (parts[i].start, parts[i].end),
                (c.start, c.end),
            ))
            &&& (parts[i].number >= 4 ==> parts[i].end - parts[i].start >= 2 && c.start
                <= parts[i].start)
        }
}

/// Every partition is non-empty; the container, if any, is non-empty and starts no later
/// than any logical partition, each of which has at least two blocks.
pub open spec fn layout_ok(l: LayoutModel) -> bool {
    &&& forall|i: int| 0 <= i < l.parts.len() ==> (#[trigger] l.parts[i]).start < l.parts[i].end
    &&& (l.container matches Some(c) ==> c.start <= c.end && forall|i: int|
        0 <= i < l.parts.len() && (#[trigger] l.parts[i]).number >= 4 ==> c.start
            <= l.parts[i].start && l.parts[i].end - l.parts[i].start >= 2)
    &&& (l.container matches Some(c) ==> logical_positions(l.parts, l.parts.len() as int).len()
        > 0 && c.start == l.parts[logical_positions(l.parts, l.parts.len() as int)[0]].start)
    &&& (l.bootable matches Some(b) ==> 0 <= b < l.parts.len())
    &&& forall|i: int|
        0 <= i < l.parts.len() && (#[trigger] l.parts[i]).number >= 4 ==> l.container is Some
}

proof fn lemma_logical_span_bounds(parts: Seq<MbrPart>, i: int)
    requires
        0 <= i <= parts.len(),
        forall|j: int| 0 <= j < i ==> (#[trigger] parts[j]).start < parts[j].end,
    ensures
        logical_span(parts, i) matches Some(s) ==> s.0 <= s.1 && forall|j: int|
            0 <= j < i && (#[trigger] parts[j]).number >= 4 ==> s.0 <= parts[j].start,
        forall|j: int|
            0 <= j < i && (#[trigger] parts[j]).number >= 4 ==> logical_span(parts, i) is Some,
    decreases i,
{
    if i > 0 {
        lemma_logical_span_bounds(parts, i - 1);
        if let Some(s) = logical_span(parts, i) {
            assert forall|j: int| 0 <= j < i && (#[trigger] parts[j]).number >= 4 implies s.0
                <= parts[j].start by {
                if j < i - 1 {
                    assert(logical_span(parts, i - 1) is Some);
                }
            }
        }
    }
}

/// A resolved table: partitions in input order, the bootable one, the extended container.
pub struct LayoutModel {
    pub parts: Seq<MbrPart>,
    pub bootable: Option<int>,
    pub container: Option<MbrPart>,
}

/// What resolving `specs` on a device of `blocks` blocks gives. Checks come in this order:
/// list length, references outside the list, cycles, a first request without a start,
/// ranges, overlaps, bootable flags, numbers, chain.
pub open spec fn resolution(specs: Seq<MbrPartSpec>, blocks: u64) -> Result<
    LayoutModel,
    MbrBuilderError,
> {
    let reqs = reqs_of(specs);
    let n = reqs.len() as int;
    if n > MAX_PARTITIONS {
        Err(MbrBuilderError::TooManyPartitions)
    } else if let Some(i) = first_from(bad_ref_at(lists_of(specs)), 0, n) {
        Err(MbrBuilderError::UnresolvedReference { spec: i as u32 })
    } else if let Some(i) = first_from(conflict_at(reqs), 0, n) {
        Err(MbrBuilderError::ConflictingConstraints { spec: i as u32 })
    } else {
        let vals = passes(reqs, n as nat, limit(blocks));
        if let Some(i) = first_from(open_at(vals), 0, n) {
            let m = follow_open(reqs, vals, i, n as nat);
            Err(
                MbrBuilderError::CyclicReference {
                    spec: m as u32,
                    refers_to: open_dependency(reqs, vals, m) as u32,
                },
            )
        } else if n > 0 && reqs[0].start is None {
            Err(MbrBuilderError::UnresolvedReference { spec: 0 })
        } else if let Some(i) = first_from(bad_range_at(vals, blocks), 0, n) {
            if range_at(vals, i).0 >= range_at(vals, i).1 {
                Err(MbrBuilderError::ZeroLengthPartition { spec: i as u32 })
            } else {
                Err(MbrBuilderError::OutOfBounds { spec: i as u32 })
            }
        } else if let Some((a, b)) = first_pair(overlap_at(vals), n) {
            Err(MbrBuilderError::OverlappingPartitions { a: a as u32, b: b as u32 })
        } else {
            let boot = first_from(bootable_at(reqs), 0, n);
            if boot is Some && first_from(bootable_at(reqs), boot->0 + 1, n) is Some {
                Err(MbrBuilderError::MultipleBootable)
            } else if let Some((a, b)) = first_pair(same_number_at(reqs), n) {
                Err(MbrBuilderError::DuplicateNumber { number: reqs[a].number->0 })
            } else {
                let parts = parts_of(vals, numbering(reqs, n).0);
                if let Some(span) = logical_span(parts, n) {
                    let c = MbrPart {
                        number: container_number(reqs) as u32,
                        start: parts[first_logical(parts, n)->0].start,
                        end: span.1,
                    };
                    if chain_ok(parts, c, container_number(reqs)) {
                        Ok(LayoutModel { parts, bootable: boot, container: Some(c) })
                    } else {
                        Err(MbrBuilderError::ExtendedChainOverflow)
                    }
                } else {
                    Ok(LayoutModel { parts, bootable: boot, container: None })
                }
            }
        }
    }
}

proof fn lemma_first_from_some(p: spec_fn(int) -> bool, lo: int, n: int, i: int)
    requires
        lo <= i < n,
        p(i),
        forall|j: int| lo <= j < i ==> !#[trigger] p(j),
    ensures
        first_from(p, lo, n) == Some(i),
    decreases i - lo,
{
    if lo < i {
        lemma_first_from_some(p, lo + 1, n, i);
    }
}

proof fn lemma_first_from_none(p: spec_fn(int) -> bool, lo: int, n: int)
    requires
        forall|j: int| lo <= j < n ==> !#[trigger] p(j),
    ensures
        first_from(p, lo, n) is None,
    decreases n - lo,
{
    if lo < n {
        lemma_first_from_none(p, lo + 1, n);
    }
}

proof fn lemma_first_from_is_first(p: spec_fn(int) -> bool, lo: int, n: int)
    ensures
        first_from(p, lo, n) matches Some(i) ==> lo <= i < n && p(i) && forall|j: int|
            lo <= j < i ==> !#[trigger] p(j),
        first_from(p, lo, n) is None ==> forall|j: int| lo <= j < n ==> !#[trigger] p(j),
    decreases n - lo,
{
    if lo < n {
        lemma_first_from_is_first(p, lo + 1, n);
    }
}

/// `first_pair` finds `(a, b)` where `q(a, b)` holds and no earlier pair does.
proof fn lemma_first_pair_some(q: spec_fn(int, int) -> bool, n: int, a: int, b: int)
    requires
        0 <= a < b < n,
        q(a, b),
        forall|i: int, j: int| 0 <= i < a && i < j < n ==> !#[trigger] q(i, j),
        forall|j: int| a < j < b ==> !#[trigger] q(a, j),
    ensures
        first_pair(q, n) == Some((a, b)),
{
    let row = |i: int| first_from(|j: int| q(i, j), i + 1, n) is Some;
    lemma_first_from_some(|j: int| q(a, j), a + 1, n, b);
    assert forall|i: int| 0 <= i < a implies !#[trigger] row(i) by {
        lemma_first_from_none(|j: int| q(i, j), i + 1, n);
    }
    lemma_first_from_some(row, 0, n, a);
}

proof fn lemma_first_pair_none(q: spec_fn(int, int) -> bool, n: int)
    requires
        forall|i: int, j: int| 0 <= i < j < n ==> !#[trigger] q(i, j),
    ensures
        first_pair(q, n) is None,
{
    let row = |i: int| first_from(|j: int| q(i, j), i + 1, n) is Some;
    assert forall|i: int| 0 <= i < n implies !#[trigger] row(i) by {
        lemma_first_from_none(|j: int| q(i, j), i + 1, n);
    }
    lemma_first_from_none(row, 0, n);
}

proof fn lemma_first_pair_is_first(q: spec_fn(int, int) -> bool, n: int)
    ensures
        first_pair(q, n) matches Some(p) ==> 0 <= p.0 < p.1 < n && q(p.0, p.1),
        first_pair(q, n) is None ==> forall|i: int, j: int| 0 <= i < j < n ==> !#[trigger] q(i, j),
{
    let row = |i: int| first_from(|j: int| q(i, j), i + 1, n) is Some;
    lemma_first_from_is_first(row, 0, n);
    if let Some(i) = first_from(row, 0, n) {
        lemma_first_from_is_first(|j: int| q(i, j), i + 1, n);
    } else {
        assert forall|i: int, j: int| 0 <= i < j < n implies !#[trigger] q(i, j) by {
            assert(!row(i));
            assert(first_from(|j: int| q(i, j), i + 1, n) is None);
            lemma_first_from_is_first(|j: int| q(i, j), i + 1, n);
            assert(!(|j: int| q(i, j))(j));
        }
    }
}

/// A resolved table, ready to be laid out in sectors.
pub struct MbrLayout {
    /// The partitions, in input order.
    pub parts: Vec<MbrPart>,
    /// Position of the bootable partition, if any.
    pub bootable: Option<usize>,
    /// The extended container that holds the logical partitions, if there are any.
    pub container: Option<MbrPart>,
}

impl View for MbrLayout {
    type V = LayoutModel;

    open spec fn view(&self) -> LayoutModel {
        LayoutModel {
            parts: self.parts@,
            bootable: match self.bootable {
                Some(i) => Some(i as int),
                None => None,
            },
            container: self.container,
        }
    }
}

fn first_open(vals: &Vec<Option<(u64, u64)>>) -> (r: Option<usize>)
    ensures
        match r {
            Some(i) => first_from(open_at(vals@), 0, vals@.len() as int) == Some(i as int),
            None => first_from(open_at(vals@), 0, vals@.len() as int) is None,
        },
{
    let n = vals.len();
    let mut i: usize = 0;
    while i < n
        invariant
            n == vals@.len(),
            i <= n,
            forall|j: int| 0 <= j < i ==> !#[trigger] open_at(vals@)(j),
        decreases n - i,
    {
        if vals[i].is_none() {
            proof {
                lemma_first_from_some(open_at(vals@), 0, n as int, i as int);
            }
            return Some(i);
        }
        i = i + 1;
    }
    proof {
        lemma_first_from_none(open_at(vals@), 0, n as int);
    }
    None
}

fn first_bad_range(vals: &Vec<Option<(u64, u64)>>, blocks: u64) -> (r: Option<usize>)
    requires
        forall|j: int| 0 <= j < vals@.len() ==> #[trigger] vals@[j] is Some,
    ensures
        match r {
            Some(i) => i < vals@.len() && first_from(bad_range_at(vals@, blocks), 0, vals@.len() as int) == Some(
                i as int,
            ),
            None => first_from(bad_range_at(vals@, blocks), 0, vals@.len() as int) is None,
        },
{
    let n = vals.len();
    let lim: u64 = if blocks < 0xffff_ffff {
        blocks
    } else {
        0xffff_ffff
    };
    let mut i: usize = 0;
    while i < n
        invariant
            n == vals@.len(),
            i <= n,
            lim == limit(blocks),
            forall|j: int| 0 <= j < vals@.len() ==> #[trigger] vals@[j] is Some,
            forall|j: int| 0 <= j < i ==> !#[trigger] bad_range_at(vals@, blocks)(j),
        decreases n - i,
    {
        let v = vals[i].unwrap();
        if v.0 >= v.1 || v.0 == 0 || v.1 > lim {
            proof {
                lemma_first_from_some(bad_range_at(vals@, blocks), 0, n as int, i as int);
            }
            return Some(i);
        }
        i = i + 1;
    }
    proof {
        lemma_first_from_none(bad_range_at(vals@, blocks), 0, n as int);
    }
    None
}

fn first_overlap(vals: &Vec<Option<(u64, u64)>>) -> (r: Option<(usize, usize)>)
    requires
        forall|j: int| 0 <= j < vals@.len() ==> #[trigger] vals@[j] is Some,
    ensures
        match r {
            Some(p) => first_pair(overlap_at(vals@), vals@.len() as int) == Some(
                (p.0 as int, p.1 as int),
            ),
            None => first_pair(overlap_at(vals@), vals@.len() as int) is None,
        },
{
    let n = vals.len();
    let ghost q = overlap_at(vals@);
    let mut i: usize = 0;
    while i < n
        invariant
            n == vals@.len(),
            i <= n,
            q == overlap_at(vals@),
            forall|j: int| 0 <= j < vals@.len() ==> #[trigger] vals@[j] is Some,
            forall|a: int, b: int| 0 <= a < i && a < b < n ==> !#[trigger] q(a, b),
        decreases n - i,
    {
        let x = vals[i].unwrap();
        let mut j: usize = i + 1;
        while j < n
            invariant
                n == vals@.len(),
                i < n,
                i + 1 <= j <= n,
                x == vals@[i as int]->0,
                q == overlap_at(vals@),
                forall|j: int| 0 <= j < vals@.len() ==> #[trigger] vals@[j] is Some,
                forall|a: int, b: int| 0 <= a < i && a < b < n ==> !#[trigger] q(a, b),
                forall|b: int| i < b < j ==> !#[trigger] q(i as int, b),
            decreases n - j,
        {
            let y = vals[j].unwrap();
            if x.0 < y.1 && y.0 < x.1 {
                proof {
                    lemma_first_pair_some(q, n as int, i as int, j as int);
                }
                return Some((i, j));
            }
            j = j + 1;
        }
        i = i + 1;
    }
    proof {
        lemma_first_pair_none(q, n as int);
    }
    None
}

fn first_bootable(reqs: &Vec<Req>, lo: usize) -> (r: Option<usize>)
    requires
        lo <= reqs@.len(),
    ensures
        match r {
            Some(i) => lo <= i < reqs@.len() && first_from(
                bootable_at(reqs@),
                lo as int,
                reqs@.len() as int,
            ) == Some(i as int),
            None => first_from(bootable_at(reqs@), lo as int, reqs@.len() as int) is None,
        },
{
    let n = reqs.len();
    let mut i: usize = lo;
    while i < n
        invariant
            n == reqs@.len(),
            lo <= i <= n,
            forall|j: int| lo <= j < i ==> !#[trigger] bootable_at(reqs@)(j),
        decreases n - i,
    {
        if reqs[i].bootable {
            proof {
                lemma_first_from_some(bootable_at(reqs@), lo as int, n as int, i as int);
            }
            return Some(i);
        }
        i = i + 1;
    }
    proof {
        lemma_first_from_none(bootable_at(reqs@), lo as int, n as int);
    }
    None
}

fn first_same_number(reqs: &Vec<Req>) -> (r: Option<(usize, usize)>)
    ensures
        match r {
            Some(p) => p.0 < p.1 < reqs@.len() && reqs@[p.0 as int].number is Some && first_pair(
                same_number_at(reqs@),
                reqs@.len() as int,
            ) == Some(
                (p.0 as int, p.1 as int),
            ),
            None => first_pair(same_number_at(reqs@), reqs@.len() as int) is None,
        },
{
    let n = reqs.len();
    let ghost q = same_number_at(reqs@);
    let mut i: usize = 0;
    while i < n
        invariant
            n == reqs@.len(),
            i <= n,
            q == same_number_at(reqs@),
            forall|a: int, b: int| 0 <= a < i && a < b < n ==> !#[trigger] q(a, b),
        decreases n - i,
    {
        let x = reqs[i].number;
        let mut j: usize = i + 1;
        while j < n
            invariant
                n == reqs@.len(),
                i < n,
                i + 1 <= j <= n,
                x == reqs@[i as int].number,
                q == same_number_at(reqs@),
                forall|a: int, b: int| 0 <= a < i && a < b < n ==> !#[trigger] q(a, b),
                forall|b: int| i < b < j ==> !#[trigger] q(i as int, b),
            decreases n - j,
        {
            let same = match (x, reqs[j].number) {
                (Some(a), Some(b)) => a == b,
                _ => false,
            };
            if same {
                proof {
                    lemma_first_pair_some(q, n as int, i as int, j as int);
                }
                return Some((i, j));
            }
            j = j + 1;
        }
        i = i + 1;
    }
    proof {
        lemma_first_pair_none(q, n as int);
    }
    None
}

fn is_claimed(reqs: &Vec<Req>, c: u64) -> (r: bool)
    ensures
        r == claimed(reqs@, c as int),
{
    if c > 0xffff_ffff {
        return false;
    }
    let n = reqs.len();
    let mut i: usize = 0;
    while i < n
        invariant
            n == reqs@.len(),
            i <= n,
            c <= u32::MAX,
            forall|j: int| 0 <= j < i ==> #[trigger] reqs@[j].number != Some(c as u32),
        decreases n - i,
    {
        if let Some(k) = reqs[i].number {
            if k as u64 == c {
                return true;
            }
        }
        i = i + 1;
    }
    false
}

fn skip(reqs: &Vec<Req>, c: u64) -> (r: u64)
    requires
        c + reqs@.len() <= u64::MAX,
    ensures
        r == skip_claimed(reqs@, c as int, reqs@.len()),
{
    let ghost n = reqs@.len();
    let mut x = c;
    let mut fuel = reqs.len();
    loop
        invariant
            x + fuel == c + n,
            fuel <= n == reqs@.len(),
            skip_claimed(reqs@, c as int, n) == skip_claimed(reqs@, x as int, fuel as nat),
        decreases fuel,
    {
        if fuel == 0 || !is_claimed(reqs, x) {
            return x;
        }
        x = x + 1;
        fuel = fuel - 1;
    }
}

fn count_unnumbered(reqs: &Vec<Req>) -> (r: usize)
    ensures
        r == unnumbered(reqs@, reqs@.len() as int),
{
    let n = reqs.len();
    let mut u: usize = 0;
    let mut i: usize = 0;
    while i < n
        invariant
            n == reqs@.len(),
            i <= n,
            u <= i,
            u == unnumbered(reqs@, i as int),
        decreases n - i,
    {
        if reqs[i].number.is_none() {
            u = u + 1;
        }
        i = i + 1;
    }
    u
}

fn container_needed(reqs: &Vec<Req>, free: usize) -> (r: bool)
    requires
        free == free_primaries(reqs@),
    ensures
        r == needs_container(reqs@),
{
    let n = reqs.len();
    let mut i: usize = 0;
    while i < n
        invariant
            n == reqs@.len(),
            i <= n,
            forall|j: int| 0 <= j < i ==> !is_logical_request(#[trigger] reqs@[j]),
        decreases n - i,
    {
        if let Some(k) = reqs[i].number {
            if k >= 4 {
                assert(is_logical_request(reqs@[i as int]));
                return true;
            }
        }
        i = i + 1;
    }
    count_unnumbered(reqs) > free
}

/// Numbers for every request, and the container's number.
fn assign_numbers(reqs: &Vec<Req>) -> (r: (Vec<u32>, u64))
    requires
        reqs@.len() <= MAX_PARTITIONS,
    ensures
        r.0@ == numbering(reqs@, reqs@.len() as int).0,
        r.0@.len() == reqs@.len(),
        r.1 == container_number(reqs@),
{
    let n = reqs.len();
    let free: usize = (if is_claimed(reqs, 0) { 0 } else { 1 }) + (if is_claimed(reqs, 1) {
        0
    } else {
        1
    }) + (if is_claimed(reqs, 2) { 0 } else { 1 }) + (if is_claimed(reqs, 3) { 0 } else { 1 });
    let need = container_needed(reqs, free);
    let budget: i64 = if need { free as i64 - 1 } else { free as i64 };
    assert(budget == primary_budget(reqs@));
    let mut nums: Vec<u32> = Vec::new();
    let mut p: u64 = 0;
    let mut q: u64 = 4;
    let mut u: usize = 0;
    let mut i: usize = 0;
    while i < n
        invariant
            n == reqs@.len() <= MAX_PARTITIONS,
            i <= n,
            u <= i,
            u == unnumbered(reqs@, i as int),
            budget == primary_budget(reqs@),
            p <= 200 * i,
            q <= 4 + 200 * i,
            (nums@, p as int, q as int) == numbering(reqs@, i as int),
            nums@.len() == i,
        decreases n - i,
    {
        match reqs[i].number {
            Some(k) => {
                nums.push(k);
            },
            None => {
                if (u as i64) < budget {
                    let c = skip(reqs, p);
                    proof {
                        lemma_skip_claimed_bound(reqs@, p as int, n as nat);
                    }
                    nums.push(c as u32);
                    p = c + 1;
                } else {
                    let c = skip(reqs, q);
                    proof {
                        lemma_skip_claimed_bound(reqs@, q as int, n as nat);
                    }
                    nums.push(c as u32);
                    q = c + 1;
                }
                u = u + 1;
            },
        }
        i = i + 1;
    }
    let c = skip(reqs, p);
    (nums, c)
}

/// The smallest range holding every logical partition.
fn span_of_logical(parts: &Vec<MbrPart>) -> (r: Option<(u64, u64)>)
    ensures
        r == logical_span(parts@, parts@.len() as int),
{
    let n = parts.len();
    let mut r: Option<(u64, u64)> = None;
    let mut i: usize = 0;
    while i < n
        invariant
            n == parts@.len(),
            i <= n,
            r == logical_span(parts@, i as int),
        decreases n - i,
    {
        let p = parts[i];
        if p.number >= 4 {
            r = match r {
                None => Some((p.start, p.end)),
                Some(s) => Some(
                    (
                        if p.start < s.0 {
                            p.start
                        } else {
                            s.0
                        },
                        if p.end > s.1 {
                            p.end
                        } else {
                            s.1
                        },
                    ),
                ),
            };
        }
        i = i + 1;
    }
    r
}

proof fn lemma_first_logical_stable(parts: Seq<MbrPart>, i: int, n: int)
    requires
        0 <= i <= n,
        first_logical(parts, i) is Some,
    ensures
        first_logical(parts, n) == first_logical(parts, i),
    decreases n - i,
{
    if i < n {
        lemma_first_logical_stable(parts, i, n - 1);
    }
}

fn find_first_logical(parts: &Vec<MbrPart>) -> (r: usize)
    requires
        first_logical(parts@, parts@.len() as int) is Some,
    ensures
        first_logical(parts@, parts@.len() as int) == Some(r as int),
{
    let n = parts.len();
    let mut j: usize = 0;
    while j < n
        invariant
            n == parts@.len(),
            j <= n,
            first_logical(parts@, j as int) is None,
            first_logical(parts@, n as int) is Some,
        decreases n - j,
    {
        if parts[j].number >= 4 {
            proof {
                lemma_first_logical_stable(parts@, j + 1, n as int);
            }
            return j;
        }
        j = j + 1;
    }
    j
}

fn check_chain(parts: &Vec<MbrPart>, c: MbrPart, number: u64) -> (r: bool)
    ensures
        r == chain_ok(parts@, c, number as int),
{
    if number >= 4 || c.start >= c.end {
        return false;
    }
    let n = parts.len();
    let mut i: usize = 0;
    while i < n
        invariant
            n == parts@.len(),
            i <= n,
            number < 4,
            c.start < c.end,
            forall|j: int|
                0 <= j < i ==> {
                    &&& ((#[trigger] parts@[j]).number < 4 ==> !overlaps(
                        (parts@[j].start, parts@[j].end),
                        (c.start, c.end),
                    ))
                            &&& (parts@[j].number >= 4 ==> parts@[j].end - parts@[j].start >= 2
                        && c.start <= parts@[j].start)
                },
        decreases n - i,
    {
        let p = parts[i];
        if p.number < 4 && p.start < c.end && c.start < p.end {
            return false;
        }
        if p.number >= 4 && (p.end < p.start || p.end - p.start < 2 || p.start < c.start) {
            return false;
        }
        i = i + 1;
    }
    true
}

/// Resolves an ordered list of partition requests on a device of `blocks` blocks.
///
/// On success the partitions come in input order with pairwise disjoint ranges, each
/// inside the device and inside what 32-bit LBAs reach; at most one is bootable; and the
/// logical partitions, if any, lie in the extended container, which no primary partition
/// shares a block with.
pub fn resolve(specs: &Vec<MbrPartSpec>, blocks: u64) -> (r: Result<MbrLayout, MbrBuilderError>)
    ensures
        resolution(specs@, blocks) == match r {
            Ok(l) => Ok(l@),
            Err(e) => Err::<LayoutModel, MbrBuilderError>(e),
        },
        r matches Ok(l) ==> {
            &&& layout_ok(l@)
            &&& l.parts@.len() == specs@.len()
            &&& forall|i: int|
                0 <= i < l.parts@.len() ==> 1 <= #[trigger] l.parts@[i].start
                    < l.parts@[i].end <= blocks
            &&& forall|i: int, j: int|
                0 <= i < j < l.parts@.len() ==> !overlaps(
                    (#[trigger] l.parts@[i].start, l.parts@[i].end),
                    (#[trigger] l.parts@[j].start, l.parts@[j].end),
                )
        },
{
    let n = specs.len();
    if n > MAX_PARTITIONS {
        return Err(MbrBuilderError::TooManyPartitions);
    }
    let ghost rs = reqs_of(specs@);
    let mut reqs: Vec<Req> = Vec::new();
    let mut i: usize = 0;
    while i < n
        invariant
            n == specs@.len() <= MAX_PARTITIONS,
            i <= n,
            rs == reqs_of(specs@),
            reqs@ == rs.subrange(0, i as int),
        decreases n - i,
    {
        reqs.push(requirements(&specs[i]));
        i = i + 1;
        assert(reqs@ =~= rs.subrange(0, i as int));
    }
    assert(reqs@ =~= rs);
    if let Some(i) = check_spec_refs(specs) {
        return Err(MbrBuilderError::UnresolvedReference { spec: i as u32 });
    }
    if let Some(i) = first_conflict(&reqs) {
        return Err(MbrBuilderError::ConflictingConstraints { spec: i as u32 });
    }
    proof {
        let lists = lists_of(specs@);
        lemma_first_from_is_first(bad_ref_at(lists), 0, n as int);
        assert forall|i: int| 0 <= i < n implies #[trigger] req_refs_ok(rs, i) by {
            assert(!bad_ref_at(lists)(i));
            lemma_req_of_members(specs@[i].specs@);
            if let Some(l) = rs[i].start {
                let k = choose|k: int|
                    0 <= k < lists[i].len() && lists[i][k] == PartSpec::Start(l);
                assert(part_spec_in_range(lists[i][k], i, n as int));
            }
            if let Some(l) = rs[i].end {
                let k = choose|k: int| 0 <= k < lists[i].len() && lists[i][k] == PartSpec::End(l);
                assert(part_spec_in_range(lists[i][k], i, n as int));
            }
        }
    }
    let lim: u64 = if blocks < 0xffff_ffff {
        blocks
    } else {
        0xffff_ffff
    };
    let vals = boundaries(&reqs, lim);
    if let Some(i) = first_open(&vals) {
        proof {
            lemma_first_from_is_first(open_at(vals@), 0, n as int);
            assert(req_refs_ok(reqs@, i as int));
        }
        let mut m = i;
        let mut k: usize = 0;
        while k < n
            invariant
                n == reqs@.len() == vals@.len() <= MAX_PARTITIONS,
                refs_ok(reqs@),
                k <= n,
                m < n,
                m == follow_open(reqs@, vals@, i as int, k as nat),
            decreases n - k,
        {
            assert(req_refs_ok(reqs@, m as int));
            m = dependency_of_open(&reqs, &vals, m);
            k = k + 1;
        }
        assert(req_refs_ok(reqs@, m as int));
        let d = dependency_of_open(&reqs, &vals, m);
        return Err(MbrBuilderError::CyclicReference { spec: m as u32, refers_to: d as u32 });
    }
    proof {
        lemma_first_from_is_first(open_at(vals@), 0, n as int);
        assert forall|j: int| 0 <= j < vals@.len() implies #[trigger] vals@[j] is Some by {
            assert(!open_at(vals@)(j));
        }
    }
    if n > 0 && reqs[0].start.is_none() {
        return Err(MbrBuilderError::UnresolvedReference { spec: 0 });
    }
    if let Some(i) = first_bad_range(&vals, blocks) {
        let v = vals[i].unwrap();
        if v.0 >= v.1 {
            return Err(MbrBuilderError::ZeroLengthPartition { spec: i as u32 });
        } else {
            return Err(MbrBuilderError::OutOfBounds { spec: i as u32 });
        }
    }
    if let Some((a, b)) = first_overlap(&vals) {
        return Err(MbrBuilderError::OverlappingPartitions { a: a as u32, b: b as u32 });
    }
    let boot = first_bootable(&reqs, 0);
    if let Some(b) = boot {
        if first_bootable(&reqs, b + 1).is_some() {
            return Err(MbrBuilderError::MultipleBootable);
        }
    }
    if let Some((a, _b)) = first_same_number(&reqs) {
        return Err(MbrBuilderError::DuplicateNumber { number: reqs[a].number.unwrap() });
    }
    let (nums, cnum) = assign_numbers(&reqs);
    let mut parts: Vec<MbrPart> = Vec::new();
    let mut k: usize = 0;
    while k < n
        invariant
            n == vals@.len() == nums@.len(),
            k <= n,
            forall|j: int| 0 <= j < vals@.len() ==> #[trigger] vals@[j] is Some,
            parts@ == parts_of(vals@, nums@).subrange(0, k as int),
        decreases n - k,
    {
        let v = vals[k].unwrap();
        parts.push(MbrPart { number: nums[k], start: v.0, end: v.1 });
        k = k + 1;
        assert(parts@ =~= parts_of(vals@, nums@).subrange(0, k as int));
    }
    assert(parts@ =~= parts_of(vals@, nums@));
    proof {
        lemma_first_from_is_first(bad_range_at(vals@, blocks), 0, n as int);
        lemma_first_pair_is_first(overlap_at(vals@), n as int);
        assert forall|i: int| 0 <= i < n implies 1 <= #[trigger] parts@[i].start
            < parts@[i].end <= blocks by {
            assert(!bad_range_at(vals@, blocks)(i));
        }
        assert forall|i: int, j: int| 0 <= i < j < n implies !overlaps(
            (#[trigger] parts@[i].start, parts@[i].end),
            (#[trigger] parts@[j].start, parts@[j].end),
        ) by {
            assert(!overlap_at(vals@)(i, j));
        }
    }
    proof {
        lemma_first_logical(parts@, n as int);
    }
    let container = match span_of_logical(&parts) {
        Some(span) => {
            if cnum >= 4 {
                return Err(MbrBuilderError::ExtendedChainOverflow);
            }
            let head = find_first_logical(&parts);
            let c = MbrPart { number: cnum as u32, start: parts[head].start, end: span.1 };
            if check_chain(&parts, c, cnum) {
                Some(c)
            } else {
                return Err(MbrBuilderError::ExtendedChainOverflow);
            }
        },
        None => None,
    };
    proof {
        lemma_logical_span_bounds(parts@, n as int);
        lemma_first_from_is_first(bootable_at(rs), 0, n as int);
    }
    Ok(MbrLayout { parts, bootable: boot, container })
}

/// Resolution depends on the requests alone: two lists holding the same constraints in the
/// same order, on the same device, give the same partitions or the same error.
pub proof fn lemma_resolution_deterministic(a: Seq<MbrPartSpec>, b: Seq<MbrPartSpec>, blocks: u64)
    requires
        a.len() == b.len(),
        forall|i: int| 0 <= i < a.len() ==> (#[trigger] a[i]).specs@ == b[i].specs@,
    ensures
        resolution(a, blocks) == resolution(b, blocks),
{
    assert(reqs_of(a) =~= reqs_of(b));
    assert(lists_of(a) =~= lists_of(b));
}

/// A resolved table has pairwise disjoint partitions, and no primary partition shares a
/// block with the extended container; only the logical partitions nest inside it.
pub proof fn lemma_resolution_disjoint(specs: Seq<MbrPartSpec>, blocks: u64)
    requires
        resolution(specs, blocks) is Ok,
    ensures
        ({
            let l = resolution(specs, blocks)->Ok_0;
            &&& forall|i: int, j: int|
                0 <= i < j < l.parts.len() ==> !overlaps(
                    (#[trigger] l.parts[i].start, l.parts[i].end),
                    (#[trigger] l.parts[j].start, l.parts[j].end),
                )
            &&& l.container matches Some(c) ==> forall|i: int|
                0 <= i < l.parts.len() && (#[trigger] l.parts[i]).number < 4 ==> !overlaps(
                    (l.parts[i].start, l.parts[i].end),
                    (c.start, c.end),
                )
        }),
{
    let reqs = reqs_of(specs);
    let n = reqs.len() as int;
    let vals = passes(reqs, n as nat, limit(blocks));
    let l = resolution(specs, blocks)->Ok_0;
    lemma_first_pair_is_first(overlap_at(vals), n);
    assert forall|i: int, j: int| 0 <= i < j < l.parts.len() implies !overlaps(
        (#[trigger] l.parts[i].start, l.parts[i].end),
        (#[trigger] l.parts[j].start, l.parts[j].end),
    ) by {
        assert(!overlap_at(vals)(i, j));
    }
    if let Some(c) = l.container {
        assert forall|i: int|
            0 <= i < l.parts.len() && (#[trigger] l.parts[i]).number < 4 implies !overlaps(
            (l.parts[i].start, l.parts[i].end),
            (c.start, c.end),
        ) by {
            assert(chain_ok(l.parts, c, container_number(reqs)));
        }
    }
}

/// At most one request of a resolved table asks to be bootable; and where at most one
/// asks, resolution does not fail for that reason.
pub proof fn lemma_bootable_unique(specs: Seq<MbrPartSpec>, blocks: u64)
    ensures
        resolution(specs, blocks) is Ok ==> forall|i: int, j: int|
            0 <= i < j < specs.len() ==> !(#[trigger] reqs_of(specs)[i].bootable && #[trigger] reqs_of(
                specs,
            )[j].bootable),
        (forall|i: int, j: int|
            0 <= i < j < specs.len() ==> !(#[trigger] reqs_of(specs)[i].bootable && #[trigger] reqs_of(
                specs,
            )[j].bootable)) ==> resolution(specs, blocks) != Err::<LayoutModel, MbrBuilderError>(
            MbrBuilderError::MultipleBootable,
        ),
{
    let reqs = reqs_of(specs);
    let n = reqs.len() as int;
    let p = bootable_at(reqs);
    lemma_first_from_is_first(p, 0, n);
    if let Some(a) = first_from(p, 0, n) {
        lemma_first_from_is_first(p, a + 1, n);
        if resolution(specs, blocks) is Ok {
            assert forall|i: int, j: int| 0 <= i < j < specs.len() implies !(
            #[trigger] reqs[i].bootable && #[trigger] reqs[j].bootable) by {
                if reqs[i].bootable && reqs[j].bootable {
                    assert(p(i) && p(j));
                    assert(a <= i);
                    assert(first_from(p, a + 1, n) is Some) by {
                        assert(a + 1 <= j < n && p(j));
                    }
                }
            }
        }
        if let Some(b) = first_from(p, a + 1, n) {
            assert(p(a) && p(b));
        }
    } else {
        assert forall|i: int, j: int| 0 <= i < j < specs.len() implies !(
        #[trigger] reqs[i].bootable && #[trigger] reqs[j].bootable) by {
            assert(!p(i));
        }
    }
}


/// Two requests that both ask to be bootable never resolve: the list fails on an earlier
/// check (length, references, cycles, ranges, overlaps) or with `MultipleBootable`, before
/// numbers and the chain are considered.
pub proof fn lemma_two_bootable_fail(specs: Seq<MbrPartSpec>, blocks: u64, i: int, j: int)
    requires
        0 <= i < j < specs.len(),
        reqs_of(specs)[i].bootable,
        reqs_of(specs)[j].bootable,
    ensures
        resolution(specs, blocks) is Err,
        !(resolution(specs, blocks)->Err_0 is DuplicateNumber),
        resolution(specs, blocks)->Err_0 != MbrBuilderError::ExtendedChainOverflow,
{
    let reqs = reqs_of(specs);
    let n = reqs.len() as int;
    let p = bootable_at(reqs);
    assert(p(i) && p(j));
    lemma_first_from_is_first(p, 0, n);
    let a = first_from(p, 0, n)->0;
    assert(a <= i);
    lemma_first_from_is_first(p, a + 1, n);
    assert(first_from(p, a + 1, n) is Some) by {
        assert(a + 1 <= j < n && p(j));
    }
}


/// In a resolved table the partition marked bootable is exactly the one whose request asks
/// for it; with no such request none is marked.
pub proof fn lemma_bootable_marked(specs: Seq<MbrPartSpec>, blocks: u64)
    requires
        resolution(specs, blocks) is Ok,
    ensures
        forall|b: int|
            0 <= b < specs.len() ==> (resolution(specs, blocks)->Ok_0.bootable == Some(b)
                <==> #[trigger] reqs_of(specs)[b].bootable),
{
    let reqs = reqs_of(specs);
    let n = reqs.len() as int;
    let p = bootable_at(reqs);
    lemma_first_from_is_first(p, 0, n);
    assert forall|b: int| 0 <= b < specs.len() implies (resolution(specs, blocks)->Ok_0.bootable
        == Some(b) <==> #[trigger] reqs[b].bootable) by {
        if reqs[b].bootable {
            assert(p(b));
            let a = first_from(p, 0, n)->0;
            lemma_first_from_is_first(p, a + 1, n);
            if a < b {
                assert(first_from(p, a + 1, n) is Some) by {
                    assert(a + 1 <= b < n && p(b));
                }
            }
        }
    }
}


/// Five requests without numbers that resolve become primary partitions 0, 1 and 2, the
/// extended container takes slot 3, and the last two become logical partitions 4 and 5,
/// chained in input order inside the container.
pub proof fn lemma_five_unnumbered(specs: Seq<MbrPartSpec>, blocks: u64)
    requires
        specs.len() == 5,
        forall|i: int| 0 <= i < 5 ==> (#[trigger] reqs_of(specs)[i]).number is None,
        resolution(specs, blocks) is Ok,
    ensures
        ({
            let l = resolution(specs, blocks)->Ok_0;
            &&& l.parts.len() == 5
            &&& l.parts[0].number == 0 && l.parts[1].number == 1 && l.parts[2].number == 2
            &&& l.parts[3].number == 4 && l.parts[4].number == 5
            &&& l.container matches Some(c) && c.number == 3 && c.start == l.parts[3].start
            &&& logical_positions(l.parts, 5) == seq![3int, 4int]
        }),
{
    let reqs = reqs_of(specs);
    assert forall|c: int| !claimed(reqs, c) by {
        if claimed(reqs, c) {
            let i = choose|i: int| 0 <= i < reqs.len() && reqs[i].number == Some(c as u32) && c <= u32::MAX;
            assert(reqs[i].number is None);
        }
    }
    assert forall|c: int, f: nat| skip_claimed(reqs, c, f) == c by {
        assert(!claimed(reqs, c));
    }
    assert(reqs[0].number is None && reqs[1].number is None && reqs[2].number is None);
    assert(reqs[3].number is None && reqs[4].number is None);
    assert(unnumbered(reqs, 0) == 0);
    assert(unnumbered(reqs, 1) == 1);
    assert(unnumbered(reqs, 2) == 2);
    assert(unnumbered(reqs, 3) == 3);
    assert(unnumbered(reqs, 4) == 4);
    assert(unnumbered(reqs, 5) == 5);
    assert(free_primaries(reqs) == 4);
    assert(needs_container(reqs));
    assert(primary_budget(reqs) == 3);
    assert(numbering(reqs, 0).0 =~= Seq::<u32>::empty() && numbering(reqs, 0).1 == 0 && numbering(reqs, 0).2 == 4);
    assert(numbering(reqs, 1).0 =~= seq![0u32] && numbering(reqs, 1).1 == 1 && numbering(reqs, 1).2 == 4);
    assert(numbering(reqs, 2).0 =~= seq![0u32, 1u32] && numbering(reqs, 2).1 == 2 && numbering(reqs, 2).2 == 4);
    assert(numbering(reqs, 3).0 =~= seq![0u32, 1u32, 2u32] && numbering(reqs, 3).1 == 3 && numbering(reqs, 3).2 == 4);
    assert(numbering(reqs, 4).0 =~= seq![0u32, 1u32, 2u32, 4u32] && numbering(reqs, 4).1 == 3 && numbering(reqs, 4).2 == 5);
    assert(numbering(reqs, 5).0 =~= seq![0u32, 1u32, 2u32, 4u32, 5u32] && numbering(reqs, 5).1 == 3);
    assert(container_number(reqs) == 3);
    let l = resolution(specs, blocks)->Ok_0;
    lemma_first_logical(l.parts, 5);
    assert(l.parts[0].number == 0 && l.parts[1].number == 1 && l.parts[2].number == 2);
    assert(l.parts[3].number == 4 && l.parts[4].number == 5);
    assert(logical_positions(l.parts, 0) =~= Seq::<int>::empty());
    assert(logical_positions(l.parts, 1) =~= Seq::<int>::empty());
    assert(logical_positions(l.parts, 2) =~= Seq::<int>::empty());
    assert(logical_positions(l.parts, 3) =~= Seq::<int>::empty());
    assert(logical_positions(l.parts, 4) =~= seq![3int]);
    assert(logical_positions(l.parts, 5) =~= seq![3int, 4int]);
}


/// Boundary `l` of request `i` has value `v` among `parts`.
pub open spec fn loc_holds(parts: Seq<MbrPart>, i: int, l: LocSpec, v: u64) -> bool {
    match l {
        LocSpec::Block(b) => v == b,
        LocSpec::AtStartOf(r) => v == parts[target(i, r)].start,
        LocSpec::AtEndOf(r) => v == parts[target(i, r)].end,
    }
}

proof fn lemma_values_stable(
    reqs: Seq<Req>,
    old: Seq<Option<(u64, u64)>>,
    new: Seq<Option<(u64, u64)>>,
    i: int,
    dev_end: u64,
)
    requires
        refs_ok(reqs),
        0 <= i < reqs.len(),
        old.len() == reqs.len(),
        new.len() == reqs.len(),
        forall|t: int| 0 <= t < reqs.len() && (#[trigger] old[t]) is Some ==> new[t] == old[t],
    ensures
        start_value(reqs, old, i) is Some ==> start_value(reqs, new, i) == start_value(
            reqs,
            old,
            i,
        ),
        end_value(reqs, old, i, dev_end) is Some ==> end_value(reqs, new, i, dev_end) == end_value(
            reqs,
            old,
            i,
            dev_end,
        ),
{
    assert(req_refs_ok(reqs, i));
    if let Some(l) = reqs[i].start {
        if let LocSpec::AtStartOf(r) = l {
            assert(old[target(i, r)] is Some ==> new[target(i, r)] == old[target(i, r)]);
        } else if let LocSpec::AtEndOf(r) = l {
            assert(old[target(i, r)] is Some ==> new[target(i, r)] == old[target(i, r)]);
        }
    } else if i > 0 {
        assert(old[i - 1] is Some ==> new[i - 1] == old[i - 1]);
    }
    if let Some(l) = reqs[i].end {
        if let LocSpec::AtStartOf(r) = l {
            assert(old[target(i, r)] is Some ==> new[target(i, r)] == old[target(i, r)]);
        } else if let LocSpec::AtEndOf(r) = l {
            assert(old[target(i, r)] is Some ==> new[target(i, r)] == old[target(i, r)]);
        }
    }
}

/// Every range known after `k` passes is what the request's constraints give from the
/// ranges known then.
proof fn lemma_passes_consistent(reqs: Seq<Req>, k: nat, dev_end: u64)
    requires
        refs_ok(reqs),
    ensures
        passes(reqs, k, dev_end).len() == reqs.len(),
        forall|i: int|
            0 <= i < reqs.len() && (#[trigger] passes(reqs, k, dev_end)[i]) is Some ==> {
                &&& start_value(reqs, passes(reqs, k, dev_end), i) == Some(
                    range_at(passes(reqs, k, dev_end), i).0,
                )
                &&& end_value(reqs, passes(reqs, k, dev_end), i, dev_end) == Some(
                    range_at(passes(reqs, k, dev_end), i).1,
                )
            },
    decreases k,
{
    if k > 0 {
        let old = passes(reqs, (k - 1) as nat, dev_end);
        let new = passes(reqs, k, dev_end);
        lemma_passes_consistent(reqs, (k - 1) as nat, dev_end);
        assert(new == pass(reqs, old, dev_end));
        assert forall|t: int| 0 <= t < reqs.len() && (#[trigger] old[t]) is Some implies new[t]
            == old[t] by {}
        assert forall|i: int| 0 <= i < reqs.len() && (#[trigger] new[i]) is Some implies {
            &&& start_value(reqs, new, i) == Some(range_at(new, i).0)
            &&& end_value(reqs, new, i, dev_end) == Some(range_at(new, i).1)
        } by {
            lemma_values_stable(reqs, old, new, i, dev_end);
        }
    }
}

/// In a resolved table each boundary is what its constraint asks: a block address, or the
/// start or end of the request it refers to. A request without a start begins where the
/// one before it ends; one without an end reaches the end of the device.
pub proof fn lemma_boundaries_follow_constraints(specs: Seq<MbrPartSpec>, blocks: u64)
    requires
        resolution(specs, blocks) is Ok,
    ensures
        ({
            let parts = resolution(specs, blocks)->Ok_0.parts;
            let reqs = reqs_of(specs);
            forall|i: int|
                0 <= i < specs.len() ==> {
                    &&& ((#[trigger] reqs[i]).start matches Some(l) ==> loc_holds(
                        parts,
                        i,
                        l,
                        parts[i].start,
                    ))
                    &&& (reqs[i].start is None && i > 0 ==> parts[i].start == parts[i - 1].end)
                    &&& (reqs[i].end matches Some(l) ==> loc_holds(parts, i, l, parts[i].end))
                    &&& (reqs[i].end is None ==> parts[i].end == limit(blocks))
                }
        }),
{
    let reqs = reqs_of(specs);
    let n = reqs.len() as int;
    let lists = lists_of(specs);
    lemma_first_from_is_first(bad_ref_at(lists), 0, n);
    assert forall|i: int| 0 <= i < n implies #[trigger] req_refs_ok(reqs, i) by {
        assert(!bad_ref_at(lists)(i));
        lemma_req_of_members(specs[i].specs@);
        if let Some(l) = reqs[i].start {
            let k = choose|k: int| 0 <= k < lists[i].len() && lists[i][k] == PartSpec::Start(l);
            assert(part_spec_in_range(lists[i][k], i, n));
        }
        if let Some(l) = reqs[i].end {
            let k = choose|k: int| 0 <= k < lists[i].len() && lists[i][k] == PartSpec::End(l);
            assert(part_spec_in_range(lists[i][k], i, n));
        }
    }
    let vals = passes(reqs, n as nat, limit(blocks));
    lemma_passes_consistent(reqs, n as nat, limit(blocks));
    lemma_first_from_is_first(open_at(vals), 0, n);
    let parts = resolution(specs, blocks)->Ok_0.parts;
    assert forall|i: int| 0 <= i < specs.len() implies {
        &&& ((#[trigger] reqs[i]).start matches Some(l) ==> loc_holds(parts, i, l, parts[i].start))
        &&& (reqs[i].start is None && i > 0 ==> parts[i].start == parts[i - 1].end)
        &&& (reqs[i].end matches Some(l) ==> loc_holds(parts, i, l, parts[i].end))
        &&& (reqs[i].end is None ==> parts[i].end == limit(blocks))
    } by {
        assert(!open_at(vals)(i));
        assert(req_refs_ok(reqs, i));
        if i > 0 {
            assert(!open_at(vals)(i - 1));
        }
        if let Some(l) = reqs[i].start {
            if let LocSpec::AtStartOf(r) = l {
                assert(!open_at(vals)(target(i, r)));
            } else if let LocSpec::AtEndOf(r) = l {
                assert(!open_at(vals)(target(i, r)));
            }
        }
        if let Some(l) = reqs[i].end {
            if let LocSpec::AtStartOf(r) = l {
                assert(!open_at(vals)(target(i, r)));
            } else if let LocSpec::AtEndOf(r) = l {
                assert(!open_at(vals)(target(i, r)));
            }
        }
    }
}


/// Request `i` waits on request `j`: one of its boundaries refers to `j`, or it has no start
/// and `j` is the request before it.
pub open spec fn waits_on(reqs: Seq<Req>, i: int, j: int) -> bool {
    ||| (reqs[i].start matches Some(l) && loc_refers(i, l, j))
    ||| (reqs[i].start is None && i > 0 && j == i - 1)
    ||| (reqs[i].end matches Some(l) && loc_refers(i, l, j))
}

/// Boundary `l` of request `i` refers to request `j`.
pub open spec fn loc_refers(i: int, l: LocSpec, j: int) -> bool {
    match l {
        LocSpec::AtStartOf(r) => target(i, r) == j,
        LocSpec::AtEndOf(r) => target(i, r) == j,
        LocSpec::Block(_) => false,
    }
}

/// `c` lists requests that each wait on the next, the last on the first.
pub open spec fn is_cycle(reqs: Seq<Req>, c: Seq<int>) -> bool {
    &&& c.len() > 0
    &&& forall|q: int| 0 <= q < c.len() ==> 0 <= #[trigger] c[q] < reqs.len()
    &&& forall|q: int|
        0 <= q < c.len() ==> waits_on(reqs, #[trigger] c[q], c[if q + 1 < c.len() {
            q + 1
        } else {
            0
        }])
}

proof fn lemma_cycle_stays_open(reqs: Seq<Req>, c: Seq<int>, k: nat, dev_end: u64)
    requires
        is_cycle(reqs, c),
    ensures
        forall|q: int| 0 <= q < c.len() ==> #[trigger] passes(reqs, k, dev_end)[c[q]] is None,
    decreases k,
{
    if k > 0 {
        lemma_cycle_stays_open(reqs, c, (k - 1) as nat, dev_end);
        let old = passes(reqs, (k - 1) as nat, dev_end);
        assert forall|q: int| 0 <= q < c.len() implies #[trigger] passes(reqs, k, dev_end)[c[q]]
            is None by {
            let nq = if q + 1 < c.len() {
                q + 1
            } else {
                0
            };
            assert(old[c[nq]] is None);
            assert(waits_on(reqs, c[q], c[nq]));
        }
    }
}

/// A cycle of references never resolves: the list fails on references outside it or on
/// conflicting constraints, or it fails with `CyclicReference`, naming a request at or
/// before the lowest member of the cycle.
pub proof fn lemma_cycle_detected(specs: Seq<MbrPartSpec>, blocks: u64, c: Seq<int>)
    requires
        is_cycle(reqs_of(specs), c),
    ensures
        resolution(specs, blocks) is Err,
        resolution(specs, blocks)->Err_0 is TooManyPartitions || resolution(specs, blocks)->Err_0 is UnresolvedReference
            || resolution(specs, blocks)->Err_0 is ConflictingConstraints || resolution(
            specs,
            blocks,
        )->Err_0 is CyclicReference,
{
    let reqs = reqs_of(specs);
    let n = reqs.len() as int;
    let vals = passes(reqs, n as nat, limit(blocks));
    lemma_cycle_stays_open(reqs, c, n as nat, limit(blocks));
    assert(vals[c[0]] is None);
    assert(open_at(vals)(c[0]));
    lemma_first_from_is_first(open_at(vals), 0, n);
}

} // verus!
