//! How the numbers below [`SETSPHMAXRAD`] factor, for tables of powers
//! that are filled by multiplication.
use vstd::prelude::*;

verus! {

/// Bound on the radius of a sphere, and length of the power tables.
pub const SETSPHMAXRAD: usize = 256;

/// Whether `d` divides `n`.
pub open spec fn divides(d: int, n: int) -> bool {
    n % d == 0
}

/// Whether `n` is a prime number.
pub open spec fn is_prime(n: int) -> bool {
    n >= 2 && forall|d: int| 2 <= d < n ==> !#[trigger] divides(d, n)
}

/// Whether `p` is the least prime that divides `n`.
pub open spec fn least_prime_of(p: int, n: int) -> bool {
    &&& is_prime(p)
    &&& divides(p, n)
    &&& forall|q: int| #[trigger] is_prime(q) && q < p ==> !divides(q, n)
}

/// Whether no prime lies strictly between `a` and `b`.
pub open spec fn no_prime_between(a: int, b: int) -> bool {
    forall|q: int| a < q < b ==> !#[trigger] is_prime(q)
}

/// What the table holds for `z`: zero and the next prime (or the last odd
/// number) for an odd prime, its half and two for an even number, its
/// least prime and the rest for an odd composite.
pub open spec fn factored(z: int, a: int, b: int) -> bool {
    if z == 0 {
        a == 0 && b == 3
    } else if z <= 2 {
        a == 0 && b == 0
    } else if z % 2 == 0 {
        a == z / 2 && b == 2
    } else if is_prime(z) {
        &&& a == 0
        &&& z < b || b == 255
        &&& no_prime_between(z, b)
        &&& is_prime(b) || (b == 255 && no_prime_between(z, SETSPHMAXRAD as int))
    } else {
        least_prime_of(a, z) && a * b == z
    }
}

/// The factors of the numbers below [`SETSPHMAXRAD`].
pub struct PowerTables {
    pub factr: [[u32; 2]; 256],
}

/// A number that is not prime has a prime divisor whose square is not
/// above it.
proof fn lemma_small_prime(n: int) -> (p: int)
    requires
        n >= 2,
        !is_prime(n),
    ensures
        is_prime(p),
        divides(p, n),
        p * p <= n,
{
    let d = choose|d: int| 2 <= d < n && #[trigger] divides(d, n);
    let p = lemma_prime_divisor(d, n);
    lemma_prime_below(p, n)
}

/// Any divisor but one leads to a prime divisor.
proof fn lemma_prime_divisor(d: int, n: int) -> (p: int)
    requires
        2 <= d,
        divides(d, n),
    ensures
        2 <= p <= d,
        is_prime(p),
        divides(p, n),
    decreases d,
{
    if is_prime(d) {
        d
    } else {
        let e = choose|e: int| 2 <= e < d && #[trigger] divides(e, d);
        lemma_divides_through(e, d, n);
        lemma_prime_divisor(e, n)
    }
}

proof fn lemma_divides_through(e: int, d: int, n: int)
    requires
        0 < e,
        0 < d,
        divides(e, d),
        divides(d, n),
    ensures
        divides(e, n),
{
    vstd::arithmetic::div_mod::lemma_fundamental_div_mod(n, d);
    vstd::arithmetic::div_mod::lemma_fundamental_div_mod(d, e);
    let q = n / d;
    let r = d / e;
    assert(n == e * (r * q)) by (nonlinear_arith)
        requires
            n == d * q,
            d == e * r,
    ;
    vstd::arithmetic::div_mod::lemma_mod_multiples_basic(r * q, e);
    assert((r * q) * e == n) by (nonlinear_arith)
        requires
            n == e * (r * q),
    ;
}

/// The prime divisor or one of its cofactor is small.
proof fn lemma_prime_below(p: int, n: int) -> (q: int)
    requires
        n >= 2,
        is_prime(p),
        p < n,
        divides(p, n),
    ensures
        is_prime(q),
        divides(q, n),
        q * q <= n,
{
    if p * p <= n {
        p
    } else {
        vstd::arithmetic::div_mod::lemma_fundamental_div_mod(n, p);
        let c = n / p;
        assert(n == p * c);
        assert(c >= 2 && c < p) by (nonlinear_arith)
            requires
                n == p * c,
                p < n,
                p >= 2,
                p * p > n,
        ;
        vstd::arithmetic::div_mod::lemma_mod_multiples_basic(p, c);
        assert(divides(c, n));
        let q = lemma_prime_divisor(c, n);
        assert(q * q <= n) by (nonlinear_arith)
            requires
                q <= c,
                c < p,
                2 <= q,
                n == p * c,
        ;
        q
    }
}

/// An odd number that no odd prime up to `i` divides is prime, where the
/// next odd square is above it.
proof fn lemma_sieved(z: int, i: int)
    requires
        z >= 3,
        z % 2 == 1,
        i % 2 == 1,
        i >= 1,
        z < (i + 2) * (i + 2),
        forall|q: int| #[trigger] is_prime(q) && 3 <= q <= i ==> !divides(q, z),
    ensures
        is_prime(z),
{
    if !is_prime(z) {
        let p = lemma_small_prime(z);
        assert(p < i + 2) by (nonlinear_arith)
            requires
                p * p <= z,
                z < (i + 2) * (i + 2),
                p >= 2,
                i >= 1,
        ;
        if p == 2 {
            assert(false);
        } else {
            lemma_odd_prime(p);
            assert(p <= i);
            assert(false);
        }
    }
}

/// Primes above two are odd.
proof fn lemma_odd_prime(p: int)
    requires
        is_prime(p),
        p > 2,
    ensures
        p % 2 == 1,
{
    assert(!divides(2, p));
}

/// A divisor between one and the number makes it composite.
proof fn lemma_composite(d: int, n: int)
    requires
        2 <= d < n,
        divides(d, n),
    ensures
        !is_prime(n),
{
}

/// Whether the table is filled up to `z`: the last odd prime below `z` is
/// `k`, which is zero where there is none.
spec fn sieved(t: Seq<[u32; 2]>, z: int, k: int) -> bool {
    &&& t.len() == 256
    &&& t[1]@ == seq![0u32, 0u32]
    &&& t[2]@ == seq![0u32, 0u32]
    &&& k == 0 || (is_prime(k) && 3 <= k < z)
    &&& forall|q: int| k < q < z && q > 2 ==> !#[trigger] is_prime(q)
    &&& forall|m: int|
        #![trigger t[m]]
        3 <= m < z && m < 256 ==> if m == k || (m % 2 == 1 && is_prime(m)) {
            t[m][0] == 0
        } else {
            factored(m, t[m][0] as int, t[m][1] as int)
        }
    &&& forall|m: int|
        #![trigger t[m]]
        3 <= m < k && is_prime(m) ==> m < t[m][1] <= k && is_prime(t[m][1] as int)
            && no_prime_between(m, t[m][1] as int)
}

/// The least odd prime that divides `z`, at most `i`; zero where there is
/// none.
fn odd_divisor(t: &[[u32; 2]; 256], z: u32, i: u32, k: Ghost<int>) -> (r: u32)
    requires
        3 <= z < 256,
        z % 2 == 1,
        i < z,
        sieved(t@, z as int, k@),
        k@ > 0 ==> t[k@][1] == z,
    ensures
        r == 0 ==> forall|q: int| #[trigger] is_prime(q) && 3 <= q <= i ==> !divides(q, z as int),
        r != 0 ==> 3 <= r <= i && is_prime(r as int) && divides(r as int, z as int),
        forall|q: int| #[trigger] is_prime(q) && 3 <= q < r ==> !divides(q, z as int),
{
    let ghost k = k@;
    let mut zz: u32 = 3;
    assert(is_prime(3)) by {
        assert(!divides(2, 3));
    }
    while zz <= i
        invariant
            3 <= z < 256,
            i < z,
            sieved(t@, z as int, k),
            k > 0 ==> t[k][1] == z,
            3 <= zz <= z,
            zz < z ==> is_prime(zz as int),
            forall|q: int| #[trigger] is_prime(q) && 3 <= q < zz ==> !divides(q, z as int),
        decreases z - zz,
    {
        if z % zz == 0 {
            return zz;
        }
        proof {
            assert(!divides(zz as int, z as int));
            let s = t@[zz as int];
            if zz > k {
                assert(is_prime(zz as int));
                assert(false);
            }
            assert(is_prime(k));
            assert(t@[k][1] == z);
        }
        let ghost before = zz;
        zz = t[zz as usize][1];
        assert forall|q: int| #[trigger] is_prime(q) && 3 <= q < zz implies !divides(
            q,
            z as int,
        ) by {
            if q > before {
                assert(before == k ==> q < z);
            }
        }
    }
    0
}

/// The sieve goes on by one odd number and the even number after it.
proof fn lemma_sieved_next(
    t: Seq<[u32; 2]>,
    u: Seq<[u32; 2]>,
    z: int,
    k: int,
    d: int,
    i: int,
)
    requires
        3 <= z < 256,
        z % 2 == 1,
        1 <= i < z,
        i % 2 == 1,
        z < (i + 2) * (i + 2),
        sieved(t, z, k),
        k > 0 ==> t[k][1] == z,
        u.len() == 256,
        forall|m: int| 0 <= m < z ==> #[trigger] u[m] == t[m],
        d == 0 ==> forall|q: int| #[trigger] is_prime(q) && 3 <= q <= i ==> !divides(q, z),
        d != 0 ==> 3 <= d <= i && is_prime(d) && divides(d, z),
        d != 0 ==> forall|q: int| #[trigger] is_prime(q) && 3 <= q < d ==> !divides(q, z),
        u[z][0] == d,
        d != 0 ==> u[z][1] == z / d,
        z + 1 < 256 ==> u[z + 1][0] == (z + 1) / 2 && u[z + 1][1] == 2,
    ensures
        sieved(
            u,
            z + 2,
            if d == 0 {
                z
            } else {
                k
            },
        ),
{
    assert(!is_prime(z + 1)) by {
        lemma_composite(2, z + 1);
    }
    if d == 0 {
        lemma_sieved(z, i);
        assert forall|m: int| #![trigger u[m]] 3 <= m < z && is_prime(m) implies m < u[m][1] <= z
            && is_prime(u[m][1] as int) && no_prime_between(m, u[m][1] as int) by {
            assert(u[m] == t[m]);
            assert(m <= k);
        }
    } else {
        lemma_composite(d, z);
        vstd::arithmetic::div_mod::lemma_fundamental_div_mod(z, d);
        assert(d * (z / d) == z);
        assert(least_prime_of(d, z));
        assert(factored(z, d, z / d));
    }
    let k2 = if d == 0 {
        z
    } else {
        k
    };
    assert forall|m: int| #![trigger u[m]] 3 <= m < z + 2 && m < 256 implies if m == k2
        || (m % 2 == 1 && is_prime(m)) {
        u[m][0] == 0
    } else {
        factored(m, u[m][0] as int, u[m][1] as int)
    } by {
        if m < z {
            assert(u[m] == t[m]);
            if m == k {
                lemma_odd_prime(k);
            }
        }
    }
    assert(u[1] == t[1] && u[2] == t[2]);
    assert forall|m: int| #![trigger u[m]] 3 <= m < k && is_prime(m) implies m < u[m][1] <= k
        && is_prime(u[m][1] as int) && no_prime_between(m, u[m][1] as int) by {
        assert(u[m] == t[m]);
    }
}

impl Default for PowerTables {
    fn default() -> (t: Self)
        ensures
            forall|z: int|
                0 <= z < 256 ==> factored(
                    z,
                    (#[trigger] t.factr[z])[0] as int,
                    t.factr[z][1] as int,
                ),
    {
        PowerTables::new()
    }
}

impl PowerTables {
    /// Sieves the table.
    #[must_use]
    pub fn new() -> (t: PowerTables)
        ensures
            forall|z: int|
                0 <= z < 256 ==> factored(
                    z,
                    (#[trigger] t.factr[z])[0] as int,
                    t.factr[z][1] as int,
                ),
    {
        let mut factr: [[u32; 2]; 256] = [[0, 0];256];
        let mut i: u32 = 1;
        let mut j: u32 = 9;
        let mut k: usize = 0;
        let mut z: u32 = 3;
        while (z as usize) < SETSPHMAXRAD
            invariant
                3 <= z <= 257,
                z % 2 == 1,
                1 <= i,
                i % 2 == 1,
                i * i <= z <= j,
                j == (i + 2) * (i + 2),
                j % 2 == 1,
                i < z,
                sieved(factr@, z as int, k as int),
                z == 3 ==> k == 0 && factr[0]@ == seq![0u32, 0u32],
                z > 3 ==> k >= 3 && factr[0]@ == seq![0u32, 3u32],
                3 <= k < z - 2 ==> factr[k as int][1] == z - 2,
            decreases 257 - z,
        {
            proof {
                assert(i < 16) by (nonlinear_arith)
                    requires
                        i * i <= z,
                        z < 256,
                        i >= 0,
                ;
            }
            if z == j {
                proof {
                    assert((i + 4) * (i + 4) == (i + 2) * (i + 2) + 4 * i + 12) by (nonlinear_arith);
                    assert(i + 2 < (i + 2) * (i + 2)) by (nonlinear_arith)
                        requires
                            i >= 1,
                    ;
                }
                j += i * 4 + 12;
                i += 2;
            }
            assert(i * i <= z < j && j == (i + 2) * (i + 2));
            let last: [u32; 2] = factr[k];
            let ghost t0 = factr@;
            factr[k] = [last[0], z];
            proof {
                assert(sieved(factr@, z as int, k as int)) by {
                    assert(factr@ == t0.update(k as int, factr@[k as int]));
                    assert forall|m: int| 0 <= m < 256 && m != k implies #[trigger] factr@[m]
                        == t0[m] by {}
                }
            }
            let ghost t = factr@;
            let d: u32 = odd_divisor(&factr, z, i, Ghost(k as int));
            if d != 0 {
                factr[z as usize] = [d, z / d];
            } else {
                factr[z as usize] = [0, factr[z as usize][1]];
            }
            if (z as usize) + 1 < SETSPHMAXRAD {
                factr[z as usize + 1] = [(z + 1) / 2, 2];
            }
            proof {
                lemma_sieved_next(t, factr@, z as int, k as int, d as int, i as int);
                assert(factr@[0] == t[0]);
                if k > 0 {
                    assert(factr@[k as int] == t[k as int]);
                }
                if z == 3 {
                    assert(factr[0]@ =~= seq![0u32, 3u32]);
                }
            }
            if d == 0 {
                k = z as usize;
            }
            z += 2;
        }
        proof {
            assert(k != 255) by {
                assert(divides(3, 255));
                lemma_composite(3, 255);
            }
            assert forall|m: int| 0 <= m < 256 implies factored(
                m,
                (#[trigger] factr[m])[0] as int,
                factr[m][1] as int,
            ) by {
                if m == 1 || m == 2 {
                    assert(factr@[m]@[0] == 0 && factr@[m]@[1] == 0);
                } else if m == 0 {
                    assert(factr[0]@[1] == 3);
                } else if is_prime(m) {
                    lemma_odd_prime(m);
                    assert(m <= k);
                } else if m == k {
                    assert(false);
                }
            }
        }
        PowerTables { factr }
    }
}

/// The two numbers that are kept for a number multiply to it, and one of
/// them is its least divisor but one, unless nothing divides an odd
/// number; then the first is zero.
pub proof fn lemma_factors_multiply(z: int, a: int, b: int, d: int)
    requires
        3 <= z < 256,
        factored(z, a, b),
        2 <= d < z,
    ensures
        a != 0 ==> a * b == z,
        a != 0 && z % 2 == 0 ==> b == 2,
        a != 0 && z % 2 == 1 ==> z % a == 0 && 2 <= a && (d < a ==> z % d != 0),
        a == 0 ==> z % d != 0,
        a == 0 && b != 255 ==> z < b,
        a == 0 && b != 255 && d < b ==> b % d != 0,
{
    if a != 0 && z % 2 == 0 {
        assert(a * b == z);
    }
    if a == 0 {
        assert(!divides(d, z)) by {
            if z % 2 == 1 && !is_prime(z) {
                assert(0 * b == 0) by (nonlinear_arith);
            }
        }
        if b != 255 && d < b {
            assert(is_prime(b));
            assert(!divides(d, b));
        }
    }
    if a != 0 && z % 2 == 1 {
        if is_prime(z) {
            assert(false);
        }
        if d < a && divides(d, z) {
            let p = lemma_prime_divisor(d, z);
        }
    }
}

} // verus!
