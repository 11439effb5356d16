//! The per-ID "needs download" plan, padded to whole chunks.
use vstd::prelude::*;

verus! {

/// Length of a plan for IDs `0..=max_id`: the smallest multiple of
/// `chunk_size` that is at least `max_id + 1`.
pub open spec fn padded_len(max_id: nat, chunk_size: nat) -> nat {
    (((max_id + chunk_size) as int / chunk_size as int) * chunk_size as int) as nat
}

/// Entry `i` is set exactly when `i` is in range and not present locally.
pub open spec fn plan_spec(max_id: nat, present: Set<usize>, chunk_size: nat) -> Seq<bool> {
    Seq::new(
        padded_len(max_id, chunk_size),
        |i: int| i <= max_id && !present.contains(i as usize),
    )
}

/// Chunk `k` of a plan: entries `[k * chunk_size, (k + 1) * chunk_size)`.
pub open spec fn chunk_spec(needs: Seq<bool>, chunk_size: nat, k: nat) -> Seq<bool> {
    needs.subrange((k * chunk_size) as int, ((k + 1) * chunk_size) as int)
}

/// The first `k` chunks, one after another.
pub open spec fn concat_chunks(needs: Seq<bool>, chunk_size: nat, k: nat) -> Seq<bool>
    decreases k,
{
    if k == 0 {
        Seq::empty()
    } else {
        concat_chunks(needs, chunk_size, (k - 1) as nat) + chunk_spec(needs, chunk_size, (k - 1) as nat)
    }
}

/// The IDs whose entries are set in `chunk`, ascending, where the chunk's
/// first entry stands for ID `first`.
pub open spec fn needed_ids(chunk: Seq<bool>, first: int) -> Seq<usize>
    decreases chunk.len(),
{
    if chunk.len() == 0 {
        Seq::empty()
    } else if chunk.last() {
        needed_ids(chunk.drop_last(), first).push((first + chunk.len() - 1) as usize)
    } else {
        needed_ids(chunk.drop_last(), first)
    }
}

pub struct DownloadPlan {
    needs: Vec<bool>,
    max_id: usize,
    chunk_size: usize,
}

pub struct PlanView {
    pub needs: Seq<bool>,
    pub max_id: nat,
    pub chunk_size: nat,
}

impl View for DownloadPlan {
    type V = PlanView;

    closed spec fn view(&self) -> PlanView {
        PlanView { needs: self.needs@, max_id: self.max_id as nat, chunk_size: self.chunk_size as nat }
    }
}

proof fn lemma_padded_len(max_id: nat, c: nat)
    requires
        c > 0,
    ensures
        padded_len(max_id, c) % c == 0,
        max_id + 1 <= padded_len(max_id, c) <= max_id + c,
        (max_id as int + 1) % (c as int) == 0 ==> padded_len(max_id, c) == max_id + 1,
        (max_id as int + 1) % (c as int) != 0 ==> padded_len(max_id, c) == max_id + 1 - (max_id as int + 1) % (c as int) + c,
{
    let ci = c as int;
    let n = max_id as int + 1;
    let q = (max_id as int + ci) / ci;
    vstd::arithmetic::div_mod::lemma_fundamental_div_mod(n, ci);
    vstd::arithmetic::div_mod::lemma_mod_multiples_basic(q, ci);
    let r = n % ci;
    let qn = n / ci;
    vstd::arithmetic::div_mod::lemma_mod_pos_bound(n, ci);
    vstd::arithmetic::div_mod::lemma_div_pos_is_pos(n, ci);
    assert(padded_len(max_id, c) == q * ci);
    if r == 0 {
        vstd::arithmetic::div_mod::lemma_div_multiples_vanish_fancy(qn, ci - 1, ci);
        assert(max_id as int + ci == ci * qn + (ci - 1)) by (nonlinear_arith)
            requires n == ci * qn + r, r == 0, max_id as int + 1 == n;
        assert(q == qn);
        assert(q * ci == n) by (nonlinear_arith)
            requires q == qn, n == ci * qn + r, r == 0;
    } else {
        vstd::arithmetic::div_mod::lemma_div_multiples_vanish_fancy(qn + 1, r - 1, ci);
        assert(max_id as int + ci == ci * (qn + 1) + (r - 1)) by (nonlinear_arith)
            requires n == ci * qn + r, max_id as int + 1 == n;
        assert(q == qn + 1);
        assert(q * ci == ci * qn + ci) by (nonlinear_arith)
            requires q == qn + 1;
    }
}

/// How `max_id % c` decides the padding of `max_id + 1` entries.
proof fn lemma_next_rem(max_id: nat, c: nat)
    requires
        c > 0,
    ensures
        (max_id as int) % (c as int) == c - 1 ==> (max_id as int + 1) % (c as int) == 0,
        (max_id as int) % (c as int) != c - 1 ==> (max_id as int + 1) % (c as int) == (max_id as int) % (c as int) + 1,
        (max_id as int) % (c as int) <= max_id,
{
    let ci = c as int;
    let m = max_id as int;
    vstd::arithmetic::div_mod::lemma_fundamental_div_mod(m, ci);
    let q = m / ci;
    let rem = m % ci;
    vstd::arithmetic::div_mod::lemma_mod_pos_bound(m, ci);
    vstd::arithmetic::div_mod::lemma_div_pos_is_pos(m, ci);
    assert(rem <= m) by (nonlinear_arith)
        requires m == ci * q + rem, q >= 0, ci > 0;
    if rem == ci - 1 {
        assert(m + 1 == (q + 1) * ci) by (nonlinear_arith)
            requires m == ci * q + rem, rem == ci - 1;
        vstd::arithmetic::div_mod::lemma_mod_multiples_basic(q + 1, ci);
    } else {
        vstd::arithmetic::div_mod::lemma_mod_multiples_vanish(q, rem + 1, ci);
        vstd::arithmetic::div_mod::lemma_small_mod((rem + 1) as nat, c);
    }
}

impl DownloadPlan {
    pub closed spec fn well_formed(&self) -> bool {
        &&& self.chunk_size > 0
        &&& self.needs@.len() == padded_len(self.max_id as nat, self.chunk_size as nat)
    }

    /// Builds the plan for IDs `0..=max_id` given the IDs already present.
    /// IDs in `present` beyond `max_id` are ignored.
    pub fn new(max_id: usize, present: &Vec<usize>, chunk_size: usize) -> (r: DownloadPlan)
        requires
            chunk_size > 0,
            padded_len(max_id as nat, chunk_size as nat) <= usize::MAX,
        ensures
            r.well_formed(),
            r@.max_id == max_id,
            r@.chunk_size == chunk_size,
            r@.needs == plan_spec(max_id as nat, present@.to_set(), chunk_size as nat),
    {
        proof { lemma_padded_len(max_id as nat, chunk_size as nat); }
        proof { lemma_next_rem(max_id as nat, chunk_size as nat); }
        let rem = max_id % chunk_size;
        let len: usize = if rem == chunk_size - 1 {
            max_id + 1
        } else {
            max_id - rem + chunk_size
        };
        assert(len == padded_len(max_id as nat, chunk_size as nat));
        let mut needs: Vec<bool> = Vec::new();
        let mut i: usize = 0;
        while i < len
            invariant
                i <= len,
                needs@.len() == i,
                forall|j: int| 0 <= j < i ==> #[trigger] needs@[j] == (j <= max_id),
            decreases len - i,
        {
            needs.push(i <= max_id);
            i += 1;
        }
        let mut k: usize = 0;
        while k < present.len()
            invariant
                k <= present@.len(),
                needs@.len() == len,
                max_id < len,
                forall|j: int| 0 <= j < len ==> #[trigger] needs@[j] == (j <= max_id
                    && !present@.subrange(0, k as int).contains(j as usize)),
            decreases present@.len() - k,
        {
            let id = present[k];
            let ghost before = needs@;
            if id <= max_id {
                needs.set(id, false);
            }
            proof {
                assert forall|j: int| 0 <= j < len implies #[trigger] needs@[j] == (j <= max_id
                    && !present@.subrange(0, k + 1).contains(j as usize)) by {
                    assert(present@.subrange(0, k + 1) =~= present@.subrange(0, k as int).push(id));
                    assert(before[j] == (j <= max_id && !present@.subrange(0, k as int).contains(j as usize)));
                    assert(present@.subrange(0, k + 1)[k as int] == id);
                    if j != id as int {
                        if present@.subrange(0, k + 1).contains(j as usize) {
                            let w = choose|w: int| 0 <= w < k + 1 && #[trigger] present@.subrange(0, k + 1)[w] == j as usize;
                            assert(present@.subrange(0, k as int)[w] == j as usize);
                        }
                    }
                }
            }
            k += 1;
        }
        proof {
            assert(present@.subrange(0, present@.len() as int) =~= present@);
            assert(needs@ =~= plan_spec(max_id as nat, present@.to_set(), chunk_size as nat));
        }
        DownloadPlan { needs, max_id, chunk_size }
    }

    pub fn len(&self) -> (r: usize)
        ensures
            r == self@.needs.len(),
    {
        self.needs.len()
    }

    pub fn max_id(&self) -> (r: usize)
        ensures
            r == self@.max_id,
    {
        self.max_id
    }

    pub fn chunk_size(&self) -> (r: usize)
        ensures
            r == self@.chunk_size,
    {
        self.chunk_size
    }

    /// Whether item `id` is to be fetched.
    pub fn needs(&self, id: usize) -> (r: bool)
        requires
            id < self@.needs.len(),
        ensures
            r == self@.needs[id as int],
    {
        self.needs[id]
    }

    /// How many chunks the plan splits into; one worker handles each.
    pub fn chunk_count(&self) -> (r: usize)
        requires
            self.well_formed(),
        ensures
            r * self@.chunk_size == self@.needs.len(),
    {
        proof {
            lemma_padded_len(self.max_id as nat, self.chunk_size as nat);
            let n = self.needs@.len() as int;
            let c = self.chunk_size as int;
            vstd::arithmetic::div_mod::lemma_fundamental_div_mod(n, c);
            assert((n / c) * c == n) by (nonlinear_arith)
                requires n == c * (n / c) + n % c, n % c == 0;
        }
        self.needs.len() / self.chunk_size
    }

    /// The IDs `[first, end)` that chunk `k` covers.
    pub fn chunk_range(&self, k: usize) -> (r: (usize, usize))
        requires
            self.well_formed(),
            k * self@.chunk_size < self@.needs.len(),
        ensures
            r.0 == k * self@.chunk_size,
            r.1 == (k + 1) * self@.chunk_size,
            r.1 <= self@.needs.len(),
    {
        proof { self.lemma_chunk_fits(k as nat); }
        let n = self.needs.len();
        assert((k + 1) * self.chunk_size == k * self.chunk_size + self.chunk_size) by (nonlinear_arith);
        let first = k * self.chunk_size;
        (first, first + self.chunk_size)
    }

    /// The IDs that the worker of chunk `k` fetches, in the order it fetches them.
    pub fn fetch_ids(&self, k: usize) -> (r: Vec<usize>)
        requires
            self.well_formed(),
            k * self@.chunk_size < self@.needs.len(),
        ensures
            r@ == needed_ids(chunk_spec(self@.needs, self@.chunk_size, k as nat), k * self@.chunk_size),
    {
        let (first, end) = self.chunk_range(k);
        assert((k + 1) * self@.chunk_size == k * self@.chunk_size + self@.chunk_size) by (nonlinear_arith);
        let ghost chunk = chunk_spec(self@.needs, self@.chunk_size, k as nat);
        let mut ids: Vec<usize> = Vec::new();
        let mut i: usize = first;
        while i < end
            invariant
                first <= i <= end <= self.needs@.len(),
                first == k * self@.chunk_size,
                end == (k + 1) * self@.chunk_size,
                chunk == self.needs@.subrange(first as int, end as int),
                ids@ == needed_ids(chunk.subrange(0, i - first), first as int),
            decreases end - i,
        {
            let ghost prefix = chunk.subrange(0, i + 1 - first);
            assert(prefix.drop_last() =~= chunk.subrange(0, i - first));
            assert(prefix.last() == self.needs@[i as int]);
            if self.needs[i] {
                ids.push(i);
            }
            i += 1;
        }
        assert(chunk.subrange(0, end - first) =~= chunk);
        ids
    }

    proof fn lemma_chunk_fits(&self, k: nat)
        requires
            self.well_formed(),
            k * self@.chunk_size < self@.needs.len(),
        ensures
            (k + 1) * self@.chunk_size <= self@.needs.len(),
    {
        let c = self.chunk_size as int;
        let n = self.needs@.len() as int;
        lemma_padded_len(self.max_id as nat, self.chunk_size as nat);
        vstd::arithmetic::div_mod::lemma_fundamental_div_mod(n, c);
        let q = n / c;
        assert(n == q * c);
        assert(k < q) by (nonlinear_arith)
            requires k * c < q * c, c > 0, k >= 0;
        assert((k + 1) * c <= q * c) by (nonlinear_arith)
            requires k + 1 <= q, c > 0;
    }
}

/// A plan's length is a whole number of chunks and covers every ID up to `max_id`.
pub proof fn lemma_plan_whole_chunks(max_id: nat, present: Set<usize>, chunk_size: nat)
    requires
        chunk_size > 0,
    ensures
        plan_spec(max_id, present, chunk_size).len() % chunk_size == 0,
        plan_spec(max_id, present, chunk_size).len() >= max_id + 1,
{
    lemma_padded_len(max_id, chunk_size);
}

/// Padding entries, beyond `max_id`, are never set.
pub proof fn lemma_plan_padding_unset(max_id: nat, present: Set<usize>, chunk_size: nat, i: int)
    requires
        chunk_size > 0,
        max_id < i < plan_spec(max_id, present, chunk_size).len(),
    ensures
        !plan_spec(max_id, present, chunk_size)[i],
{
}

/// An ID in range is set exactly when it is not present locally.
pub proof fn lemma_plan_in_range(max_id: nat, present: Set<usize>, chunk_size: nat, i: usize)
    requires
        chunk_size > 0,
        i <= max_id,
    ensures
        i < plan_spec(max_id, present, chunk_size).len(),
        plan_spec(max_id, present, chunk_size)[i as int] == !present.contains(i),
{
    lemma_padded_len(max_id, chunk_size);
}

/// The first `k` chunks, put together, are the plan's first `k * chunk_size` entries.
proof fn lemma_concat_prefix(needs: Seq<bool>, chunk_size: nat, k: nat)
    requires
        k * chunk_size <= needs.len(),
    ensures
        concat_chunks(needs, chunk_size, k) == needs.subrange(0, (k * chunk_size) as int),
    decreases k,
{
    if k > 0 {
        let j = (k - 1) as nat;
        assert(j * chunk_size <= k * chunk_size) by (nonlinear_arith)
            requires j + 1 == k;
        assert((j + 1) * chunk_size == j * chunk_size + chunk_size) by (nonlinear_arith);
        assert((j + 1) * chunk_size == k * chunk_size);
        lemma_concat_prefix(needs, chunk_size, j);
        assert(concat_chunks(needs, chunk_size, k) == concat_chunks(needs, chunk_size, j) + chunk_spec(needs, chunk_size, j));
        assert(concat_chunks(needs, chunk_size, k) =~= needs.subrange(0, (k * chunk_size) as int));
    } else {
        assert(k * chunk_size == 0) by (nonlinear_arith)
            requires k == 0;
        assert(needs.subrange(0, 0) =~= Seq::<bool>::empty());
    }
}

/// Putting all chunks together in order gives back the whole plan: every
/// entry belongs to exactly one chunk.
pub proof fn lemma_chunks_partition(needs: Seq<bool>, chunk_size: nat)
    requires
        chunk_size > 0,
        needs.len() % chunk_size == 0,
    ensures
        concat_chunks(needs, chunk_size, needs.len() / chunk_size) == needs,
{
    let k = needs.len() / chunk_size;
    vstd::arithmetic::div_mod::lemma_fundamental_div_mod(needs.len() as int, chunk_size as int);
    assert(k * chunk_size == needs.len());
    lemma_concat_prefix(needs, chunk_size, k);
    assert(needs.subrange(0, needs.len() as int) =~= needs);
}

/// Planning again over the same range once the IDs in `archived` have been
/// written clears exactly those entries: nothing archived by a run is
/// fetched again, and every other entry keeps its value.
pub proof fn lemma_rerun_skips_archived(
    max_id: nat,
    present: Set<usize>,
    chunk_size: nat,
    archived: Set<usize>,
)
    requires
        chunk_size > 0,
    ensures
        plan_spec(max_id, present.union(archived), chunk_size).len()
            == plan_spec(max_id, present, chunk_size).len(),
        forall|i: int| 0 <= i < plan_spec(max_id, present, chunk_size).len() ==>
            #[trigger] plan_spec(max_id, present.union(archived), chunk_size)[i]
                == (plan_spec(max_id, present, chunk_size)[i] && !archived.contains(i as usize)),
        forall|id: usize| #[trigger] archived.contains(id) && id < plan_spec(max_id, present, chunk_size).len() ==>
            !plan_spec(max_id, present.union(archived), chunk_size)[id as int],
{
}

} // verus!
