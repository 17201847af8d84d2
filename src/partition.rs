//! Work Partitioner: static round-robin assignment of a key set to workers.
use vstd::prelude::*;
use vstd::arithmetic::div_mod::{
    lemma_fundamental_div_mod,
    lemma_fundamental_div_mod_converse,
    lemma_mod_bound,
};

verus! {

/// The worker responsible for the key at flat position `i` among `n` workers.
pub open spec fn worker_of(i: int, n: int) -> int {
    i % n
}

/// How many of the `m` keys worker `w` receives: the positions `w`, `w + n`,
/// `w + 2n`, ... that lie below `m`.
pub open spec fn share_len(m: nat, n: nat, w: nat) -> nat {
    if w < m {
        ((m - w - 1) as nat / n + 1) as nat
    } else {
        0
    }
}

/// The keys that worker `w` of `n` receives, in listing order.
pub open spec fn share(keys: Seq<String>, n: nat, w: nat) -> Seq<String> {
    Seq::new(share_len(keys.len(), n, w), |j: int| keys[j * n + w])
}

/// The total number of keys held by workers `0..w`.
pub open spec fn shares_total(m: nat, n: nat, w: nat) -> nat
    decreases w,
{
    if w == 0 {
        0
    } else {
        shares_total(m, n, (w - 1) as nat) + share_len(m, n, (w - 1) as nat)
    }
}

/// The worker that handles the key at flat position `index` when `workers`
/// workers share a key set round-robin.
pub fn assignment(index: usize, workers: usize) -> (r: usize)
    requires
        workers >= 1,
    ensures
        r == worker_of(index as int, workers as int),
        r < workers,
{
    index % workers
}

/// The number of keys that worker `worker` handles when `total` keys are
/// shared round-robin among `workers` workers.
pub fn assigned_count(total: usize, workers: usize, worker: usize) -> (r: usize)
    requires
        workers >= 1,
    ensures
        r == share_len(total as nat, workers as nat, worker as nat),
{
    if worker < total {
        (total - worker - 1) / workers + 1
    } else {
        0
    }
}

/// The nominal per-worker load `ceil(total / workers)`.  A worker may be
/// handed fewer keys than this (see `assigned_count`), never more.
pub fn expected_load(total: usize, workers: usize) -> (r: usize)
    requires
        workers >= 1,
    ensures
        r as int == (total as int + workers as int - 1) / workers as int,
        forall|w: nat| w < workers ==> #[trigger] share_len(total as nat, workers as nat, w) <= r,
{
    let q = total / workers;
    proof {
        lemma_fundamental_div_mod(total as int, workers as int);
        assert(total % workers != 0 ==> q < total) by (nonlinear_arith)
            requires
                total as int == workers * q + total % workers,
                total % workers >= 0,
                workers >= 1,
                q >= 0,
        ;
    }
    let r = if total % workers == 0 { q } else { q + 1 };
    proof {
        if total % workers == 0 {
            assert(total as int + workers as int - 1 == q * workers + (workers as int - 1)) by (nonlinear_arith)
                requires
                    total as int == workers * q + total % workers,
                    total % workers == 0,
            ;
            lemma_fundamental_div_mod_converse(
                total as int + workers as int - 1,
                workers as int,
                q as int,
                workers as int - 1,
            );
        } else {
            assert(total as int + workers as int - 1 == (q + 1) * workers + ((total % workers) as int - 1)) by (nonlinear_arith)
                requires
                    total as int == workers * q + total % workers,
            ;
            lemma_fundamental_div_mod_converse(
                total as int + workers as int - 1,
                workers as int,
                q as int + 1,
                (total % workers) as int - 1,
            );
        }
        lemma_fundamental_div_mod(total as int + workers as int - 1, workers as int);
        assert forall|w: nat| w < workers implies #[trigger] share_len(
            total as nat,
            workers as nat,
            w,
        ) <= r by {
            if w < total {
                lemma_fundamental_div_mod((total - w - 1) as int, workers as int);
                assert(((total - w - 1) as nat / workers as nat) <= q) by (nonlinear_arith)
                    requires
                        (total - w - 1) as int == workers * ((total - w - 1) as nat / workers as nat) + (total - w - 1) as nat % workers as nat,
                        total as int == workers * q + total % workers,
                        0 <= (total - w - 1) as nat % workers as nat,
                        (total % workers) < workers,
                        workers >= 1,
                        w >= 0,
                ;
                if total % workers == 0 {
                    assert(((total - w - 1) as nat / workers as nat) < q) by (nonlinear_arith)
                        requires
                            (total - w - 1) as int == workers * ((total - w - 1) as nat / workers as nat) + (total - w - 1) as nat % workers as nat,
                            total as int == workers * q,
                            (total - w - 1) as nat % workers as nat >= 0,
                            workers >= 1,
                    ;
                }
            }
        }
    }
    r
}

/// Splits `keys` among `workers` workers round-robin: the key at position
/// `i` goes to worker `i % workers`, and each worker's keys keep their
/// listing order.
pub fn partition(keys: &Vec<String>, workers: usize) -> (r: Vec<Vec<String>>)
    requires
        workers >= 1,
    ensures
        r@.len() == workers,
        forall|w: int| 0 <= w < workers ==> #[trigger] r@[w]@ == share(keys@, workers as nat, w as nat),
{
    let m = keys.len();
    let mut out: Vec<Vec<String>> = Vec::new();
    let mut w: usize = 0;
    while w < workers
        invariant
            w <= workers,
            m == keys@.len(),
            out@.len() == w,
            forall|v: int| 0 <= v < w ==> #[trigger] out@[v]@ == share(keys@, workers as nat, v as nat),
        decreases workers - w,
    {
        let mine = worker_keys(keys, workers, w);
        out.push(mine);
        w = w + 1;
    }
    out
}

/// The keys that worker `worker` receives, in listing order.
pub fn worker_keys(keys: &Vec<String>, workers: usize, worker: usize) -> (r: Vec<String>)
    requires
        workers >= 1,
    ensures
        r@ == share(keys@, workers as nat, worker as nat),
{
    let m = keys.len();
    let ghost n = workers as int;
    let count = assigned_count(m, workers, worker);
    let mut mine: Vec<String> = Vec::new();
    let mut j: usize = 0;
    let mut idx: usize = worker;
    while j < count
        invariant
            workers >= 1,
            n == workers as int,
            m == keys@.len(),
            j <= count,
            count == share_len(m as nat, workers as nat, worker as nat),
            j < count ==> idx as int == j * n + worker,
            mine@.len() == j,
            forall|i: int| 0 <= i < mine@.len() ==> #[trigger] mine@[i] == keys@[i * n + worker],
        decreases count - j,
    {
        proof {
            assert(worker < m);
            lemma_share_len_step(m as int, n, worker as int, j as int);
            assert(idx < m);
        }
        mine.push(keys[idx].clone());
        j = j + 1;
        if j < count {
            proof {
                lemma_share_len_step(m as int, n, worker as int, j as int);
                assert(j * n + worker == (j - 1) * n + worker + n) by (nonlinear_arith);
                assert(j * n + worker < m);
            }
            idx = idx + workers;
        }
    }
    assert(mine@ =~= share(keys@, workers as nat, worker as nat));
    mine
}

/// Position `w + j*n` is below `m` exactly when `j` is below the share length.
proof fn lemma_share_len_step(m: int, n: int, w: int, j: int)
    requires
        n >= 1,
        0 <= w < m,
        j >= 0,
    ensures
        (j * n + w < m) <==> (j < share_len(m as nat, n as nat, w as nat)),
{
    let d = m - w - 1;
    lemma_fundamental_div_mod(d, n);
    let q = d / n;
    let r = d % n;
    assert(share_len(m as nat, n as nat, w as nat) == q + 1);
    if j * n + w < m {
        assert(j <= q) by (nonlinear_arith)
            requires
                j * n <= d,
                d == n * q + r,
                r < n,
                n >= 1,
        ;
    }
    if j <= q {
        assert(j * n <= q * n) by (nonlinear_arith)
            requires
                j <= q,
                n >= 1,
        ;
        assert(q * n <= d) by (nonlinear_arith)
            requires
                d == n * q + r,
                r >= 0,
        ;
    }
}

/// Every key is handed to exactly one worker, and the workers' shares
/// together hold exactly the given key set: the key at position `i` is
/// entry `i / n` of worker `i % n`'s share; every entry of every share comes
/// from one position, which maps back to that same worker and entry; and the
/// share lengths add up to the number of keys.
pub proof fn lemma_partition_exact(keys: Seq<String>, n: nat)
    requires
        n >= 1,
    ensures
        forall|i: int|
            0 <= i < keys.len() ==> {
                let s = #[trigger] share(keys, n, (i % (n as int)) as nat);
                &&& i / (n as int) < s.len()
                &&& s[i / (n as int)] == keys[i]
            },
        forall|w: nat, j: int|
            w < n && 0 <= j < share(keys, n, w).len() ==> {
                &&& #[trigger] share(keys, n, w)[j] == keys[j * n + w]
                &&& 0 <= j * n + w < keys.len()
                &&& (j * n + w) % (n as int) == w
                &&& (j * n + w) / (n as int) == j
            },
        shares_total(keys.len(), n, n) == keys.len(),
{
    let m = keys.len();
    assert forall|i: int| 0 <= i < keys.len() implies {
        let s = #[trigger] share(keys, n, (i % (n as int)) as nat);
        &&& i / (n as int) < s.len()
        &&& s[i / (n as int)] == keys[i]
    } by {
        lemma_fundamental_div_mod(i, n as int);
        let w = i % (n as int);
        let j = i / (n as int);
        assert(j >= 0) by (nonlinear_arith)
            requires
                i >= 0,
                n >= 1,
                j == i / (n as int),
        ;
        assert(j * n + w == i) by (nonlinear_arith)
            requires
                i == n * j + w,
        ;
        lemma_share_len_step(m as int, n as int, w, j);
    }
    assert forall|w: nat, j: int| w < n && 0 <= j < share(keys, n, w).len() implies {
        &&& #[trigger] share(keys, n, w)[j] == keys[j * n + w]
        &&& 0 <= j * n + w < keys.len()
        &&& (j * n + w) % (n as int) == w
        &&& (j * n + w) / (n as int) == j
    } by {
        assert(w < m);
        lemma_share_len_step(m as int, n as int, w as int, j);
        assert(j * n >= 0) by (nonlinear_arith)
            requires
                j >= 0,
                n >= 1,
        ;
        lemma_fundamental_div_mod_converse(j * n + w, n as int, j, w as int);
    }
    lemma_shares_total(m, n);
}

/// The share lengths of all `n` workers add up to `m`.
proof fn lemma_shares_total(m: nat, n: nat)
    requires
        n >= 1,
    ensures
        shares_total(m, n, n) == m,
    decreases m,
{
    if m > 0 {
        let p = (m - 1) as nat;
        lemma_shares_total(p, n);
        lemma_mod_bound(p as int, n as int);
        lemma_shares_total_step(p, n, n);
    } else {
        lemma_shares_total_empty(n, n);
    }
}

proof fn lemma_shares_total_empty(n: nat, k: nat)
    ensures
        shares_total(0, n, k) == 0,
    decreases k,
{
    if k > 0 {
        lemma_shares_total_empty(n, (k - 1) as nat);
    }
}

/// Adding one key at position `m` adds one to the total of workers `0..k`
/// exactly when its worker `m % n` is among them.
proof fn lemma_shares_total_step(m: nat, n: nat, k: nat)
    requires
        n >= 1,
        k <= n,
    ensures
        shares_total(m + 1, n, k) == shares_total(m, n, k) + (if (m % n) < k { 1int } else { 0int }),
    decreases k,
{
    if k > 0 {
        let w = (k - 1) as nat;
        lemma_shares_total_step(m, n, w);
        lemma_share_len_grow(m, n, w);
    }
}

/// Growing the key set by one position adds one key to worker `w` exactly
/// when that position belongs to `w`.
proof fn lemma_share_len_grow(m: nat, n: nat, w: nat)
    requires
        n >= 1,
        w < n,
    ensures
        share_len(m + 1, n, w) == share_len(m, n, w) + (if m % n == w { 1int } else { 0int }),
{
    lemma_fundamental_div_mod(m as int, n as int);
    let a = m as int / (n as int);
    let b = m as int % (n as int);
    if w < m {
        let d = m - w - 1;
        lemma_fundamental_div_mod(d, n as int);
        let q = d / (n as int);
        let r = d % (n as int);
        if r + 1 < n {
            lemma_fundamental_div_mod_converse(d + 1, n as int, q, r + 1);
        } else {
            assert(d + 1 == (q + 1) * n + 0) by (nonlinear_arith)
                requires
                    d == n * q + r,
                    r + 1 == n,
            ;
            lemma_fundamental_div_mod_converse(d + 1, n as int, q + 1, 0);
        }
        // (d + 1) = m - w is a multiple of n exactly when m % n == w
        if b == w {
            assert(d + 1 == a * n + 0) by (nonlinear_arith)
                requires
                    m == n * a + b,
                    b == w,
                    d == m - w - 1,
            ;
            lemma_fundamental_div_mod_converse(d + 1, n as int, a, 0);
        } else if b > w {
            assert(d + 1 == a * n + (b - w)) by (nonlinear_arith)
                requires
                    m == n * a + b,
                    d == m - w - 1,
            ;
            lemma_fundamental_div_mod_converse(d + 1, n as int, a, b - w);
        } else {
            assert(d + 1 == (a - 1) * n + (n + b - w)) by (nonlinear_arith)
                requires
                    m == n * a + b,
                    d == m - w - 1,
            ;
            lemma_fundamental_div_mod_converse(d + 1, n as int, a - 1, n + b - w);
        }
    } else if w == m {
        lemma_fundamental_div_mod_converse(m as int, n as int, 0, m as int);
        assert(share_len(m + 1, n, w) == 1) by {
            lemma_fundamental_div_mod_converse(0, n as int, 0, 0);
        }
    } else {
        lemma_fundamental_div_mod_converse(m as int, n as int, 0, m as int);
    }
}

} // verus!
