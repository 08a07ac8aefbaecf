//! An incremental sieve of Eratosthenes over the numbers below `N`.
//!
//! The sieve remembers the largest prime it has reached so far (`last_prime`).
//! Every number up to that prime is classified exactly; numbers above it are
//! only known to have no divisor below `last_prime`. Asking about a larger
//! number advances the sieve prime by prime until the number is covered.

use vstd::prelude::*;
use vstd::string::StringExecFns;
use crate::arith::{lemma_divides_trans, lemma_mod_add_self, lemma_multiples_spaced};

verus! {

/// `n` is prime: at least 2, and no `d` with `2 <= d < n` divides it.
pub open spec fn is_prime(n: int) -> bool {
    n >= 2 && forall|d: int| 2 <= d < n ==> #[trigger] (n % d) != 0
}

/// `i` is at least 2 and has no divisor `d` with `2 <= d < p`, other than
/// possibly itself: what is left of `i` once every multiple of every prime
/// below `p` has been struck out.
pub open spec fn survives(i: int, p: int) -> bool {
    i >= 2 && forall|d: int| 2 <= d < p && d < i ==> #[trigger] (i % d) != 0
}

/// Some prime lies in `lo..hi`.
pub open spec fn prime_in(lo: int, hi: int) -> bool {
    exists|q: int| lo <= q < hi && #[trigger] is_prime(q)
}

/// No prime lies strictly between `lo` and `hi`.
pub open spec fn no_prime_between(lo: int, hi: int) -> bool {
    forall|q: int| lo < q < hi ==> !#[trigger] is_prime(q)
}

/// A sieve over the numbers `0..N`.
pub struct Sieve<const N: usize> {
    bools: Vec<bool>,
    last_prime: usize,
}

impl<const N: usize> View for Sieve<N> {
    /// The largest prime the sieve has reached.
    type V = nat;

    closed spec fn view(&self) -> nat {
        self.last_prime as nat
    }
}

impl<const N: usize> Sieve<N> {
    /// The sieve's invariant: `bools[i]` holds exactly when `i` survives
    /// striking out the multiples of the primes below `last_prime`, and
    /// `last_prime` is a prime (below `N`, except in the degenerate `N == 2`).
    pub closed spec fn wf(&self) -> bool {
        &&& N >= 2
        &&& self.bools@.len() == N
        &&& 2 <= self.last_prime
        &&& (self.last_prime < N || (N == 2 && self.last_prime == 2))
        &&& is_prime(self.last_prime as int)
        &&& forall|i: int|
            0 <= i < N ==> #[trigger] self.bools@[i] == survives(i, self.last_prime as int)
    }

    /// Whether `i` is still marked as a candidate in the sieve's table.
    pub closed spec fn marked(&self, i: int) -> bool {
        self.bools@[i]
    }

    /// What the table of a well-formed sieve holds: a number below `N` is
    /// still marked exactly when it has no divisor (other than itself)
    /// below the last prime reached.
    pub proof fn lemma_marked(&self)
        requires
            self.wf(),
        ensures
            forall|i: int| 0 <= i < N ==> #[trigger] self.marked(i) == survives(i, self@ as int),
    {
    }

    /// The well-formed sieve has a prime as its view.
    pub proof fn lemma_view_is_prime(&self)
        requires
            self.wf(),
        ensures
            is_prime(self@ as int),
            2 <= self@,
            self@ < N || N == 2,
    {
    }

    /// A fresh sieve: only 0 and 1 are struck out, and the largest prime
    /// reached is 2.
    pub fn new() -> (s: Self)
        requires
            N >= 2,
        ensures
            s.wf(),
            s@ == 2,
    {
        let mut bools: Vec<bool> = vec![true; N];
        proof {
            assert forall|i: int| 0 <= i < N implies bools@[i] == true by {
                assert(cloned(true, bools@[i]));
            }
        }
        bools.set(0, false);
        bools.set(1, false);
        let s = Sieve { bools, last_prime: 2 };
        assert(is_prime(2));
        assert forall|i: int| 0 <= i < N implies #[trigger] s.bools@[i] == survives(i, 2) by {}
        s
    }

    /// Whether `num` is prime, when the sieve has already reached it:
    /// `Some(is_prime(num))` for `num <= self@`, `None` above.
    pub fn prime_check(&self, num: usize) -> (r: Option<bool>)
        requires
            self.wf(),
            num <= self@ ==> num < N,
        ensures
            r == (if num <= self@ {
                Some(is_prime(num as int))
            } else {
                None::<bool>
            }),
    {
        if num > self.last_prime {
            None
        } else {
            proof {
                self.lemma_survivors_below_last_prime(num as int);
            }
            Some(self.bools[num])
        }
    }

    /// Below the last prime reached, surviving means being prime.
    proof fn lemma_survivors_below_last_prime(&self, i: int)
        requires
            self.wf(),
            0 <= i <= self.last_prime,
        ensures
            survives(i, self.last_prime as int) == is_prime(i),
    {
        let p = self.last_prime as int;
        if survives(i, p) {
            assert forall|d: int| 2 <= d < i implies #[trigger] (i % d) != 0 by {
                assert(d < p);
            }
        }
        if is_prime(i) {
            assert forall|d: int| 2 <= d < p && d < i implies #[trigger] (i % d) != 0 by {}
        }
    }

    /// Strikes out the multiples of the last prime and moves on to the next
    /// prime below `N`. Returns `false`, leaving the sieve as it was, when no
    /// prime is left below `N`.
    fn advance(&mut self) -> (found: bool)
        requires
            old(self).wf(),
            old(self).last_prime < N,
        ensures
            final(self).wf(),
            found ==> old(self)@ < final(self)@,
            found ==> no_prime_between(old(self)@ as int, final(self)@ as int),
            !found ==> *final(self) == *old(self),
            !found ==> no_prime_between(old(self)@ as int, N as int),
    {
        let p = self.last_prime;
        let ghost pi = p as int;
        // The next number that survives the multiples of `p` as well.
        let mut cand = p + 1;
        while cand < N
            invariant_except_break
                self.wf(),
                self.last_prime == p,
                pi == p,
                p < cand <= N,
                forall|i: int| pi < i < cand ==> !#[trigger] survives(i, pi + 1),
            ensures
                self.wf(),
                self.last_prime == p,
                p < cand <= N,
                forall|i: int| pi < i < cand ==> !#[trigger] survives(i, pi + 1),
                cand < N ==> self.bools@[cand as int] && cand % p != 0,
            decreases N - cand,
        {
            if self.bools[cand] && cand % p != 0 {
                break;
            }
            proof {
                let c = cand as int;
                assert(self.bools@[c] == survives(c, pi));
                if survives(c, pi + 1) {
                    assert(c % pi != 0);
                    assert forall|d: int| 2 <= d < pi && d < c implies #[trigger] (c % d) != 0 by {
                        assert(d < pi + 1);
                    }
                    assert(false);
                }
            }
            cand = cand + 1;
        }
        if cand >= N {
            proof {
                assert forall|q: int| pi < q < N implies !#[trigger] is_prime(q) by {
                    assert(!survives(q, pi + 1));
                    if is_prime(q) {
                        assert forall|d: int| 2 <= d < pi + 1 && d < q implies #[trigger] (q % d)
                            != 0 by {}
                    }
                }
            }
            return false;
        }
        let ghost c = cand as int;
        proof {
            // `cand` survives the multiples of every prime up to `p` ...
            assert(self.bools@[c] == survives(c, pi));
            assert forall|d: int| 2 <= d < pi + 1 && d < c implies #[trigger] (c % d) != 0 by {
                if d == pi {
                } else {
                    assert(d < pi);
                }
            }
            assert(survives(c, pi + 1));
            // ... so it has no divisor at all below itself.
            assert forall|d: int| 2 <= d < c implies #[trigger] (c % d) != 0 by {
                if d > pi {
                    self.lemma_struck_between(c, d, pi);
                }
            }
            assert(is_prime(c));
            // And no prime lies strictly between `p` and `cand`.
            assert forall|q: int| pi < q < c implies !#[trigger] is_prime(q) by {
                assert(!survives(q, pi + 1));
                if is_prime(q) {
                    assert forall|d: int| 2 <= d < pi + 1 && d < q implies #[trigger] (q % d)
                        != 0 by {}
                }
            }
        }
        // Strike out 2p, 3p, ... below N.
        let ghost before = self.bools@;
        let mut j = p;
        while j < N - p
            invariant
                2 <= p < N,
                pi == p,
                self.last_prime == p,
                p <= j < N,
                j % p == 0,
                self.bools@.len() == N,
                before.len() == N,
                forall|i: int|
                    0 <= i < N ==> #[trigger] self.bools@[i] == (before[i] && !(pi < i <= j && i
                        % pi == 0)),
            decreases N - j,
        {
            let ghost old_j = j as int;
            proof {
                lemma_mod_add_self(old_j, pi);
            }
            j = j + p;
            self.bools.set(j, false);
            proof {
                assert forall|i: int| 0 <= i < N implies #[trigger] self.bools@[i] == (before[i]
                    && !(pi < i <= j && i % pi == 0)) by {
                    if i != j && pi < i <= j && i % pi == 0 && i > old_j {
                        lemma_multiples_spaced(old_j, i, pi);
                    }
                }
            }
        }
        proof {
            // Every multiple of `p` above `p` and below `N` is now struck out.
            assert forall|i: int| 0 <= i < N implies #[trigger] self.bools@[i] == survives(
                i,
                c,
            ) by {
                assert(before[i] == survives(i, pi));
                if pi < i && i % pi == 0 && i > j {
                    lemma_multiples_spaced(j as int, i, pi);
                }
                if i <= pi {
                    self.lemma_survives_same_below(i, pi, c);
                } else {
                    self.lemma_survives_extends(i, pi, c);
                }
            }
        }
        self.last_prime = cand;
        true
    }

    /// The sieve can answer for `num` without running past `N`: `num` is
    /// below `N` and either already reached or followed by a prime below `N`.
    pub open spec fn can_reach(&self, num: int) -> bool {
        num < N && (num <= self@ || prime_in(num, N as int))
    }

    /// What a search for `num` leaves behind, from sieve `pre` to sieve
    /// `post` with answer `r`: the sieve never moves back and stays put when
    /// `num` was already reached; otherwise it stops at the first prime at or
    /// above `num`, or, when no prime is left below `N`, at the last prime
    /// below `N` with no answer.
    pub open spec fn search_outcome(pre: nat, post: nat, num: int, r: Option<bool>) -> bool {
        &&& pre <= post
        &&& (num <= pre ==> post == pre)
        &&& (pre < num ==> no_prime_between(num - 1, post as int))
        &&& match r {
            Some(b) => b == is_prime(num) && num <= post,
            None => (num >= N || post < num) && no_prime_between(post as int, N as int),
        }
    }

    /// Advances the sieve until it reaches `num` and answers whether `num` is
    /// prime; `None` where the sieve would have to run past `N`.
    pub fn try_find_primes(&mut self, num: usize) -> (r: Option<bool>)
        requires
            old(self).wf(),
        ensures
            final(self).wf(),
            Self::search_outcome(old(self)@, final(self)@, num as int, r),
            r is Some <==> old(self).can_reach(num as int),
            num <= old(self)@ ==> *final(self) == *old(self),
            forall|i: int|
                0 <= i <= old(self)@ && i < N ==> #[trigger] final(self).marked(i) == old(
                    self,
                ).marked(i),
    {
        let ghost start = self@;
        while self.last_prime < num
            invariant
                self.wf(),
                start == old(self)@,
                old(self).wf(),
                2 <= start <= self@,
                start < num ==> no_prime_between(num - 1, self@ as int),
                num <= start ==> *self == *old(self),
                forall|i: int|
                    0 <= i <= start && i < N ==> #[trigger] self.bools@[i] == old(self).bools@[i],
            decreases N - self.last_prime,
        {
            if self.last_prime >= N {
                proof {
                    assert(N == 2);
                    assert(self@ == start);
                    assert forall|q: int| self@ < q < N implies !#[trigger] is_prime(q) by {}
                    assert(!prime_in(num as int, N as int));
                }
                return None;
            }
            let ghost before = self@;
            if !self.advance() {
                proof {
                    assert forall|q: int| num <= q < N implies !#[trigger] is_prime(q) by {
                        assert(before < q);
                    }
                    assert(!prime_in(num as int, N as int));
                }
                return None;
            }
            proof {
                assert forall|q: int| num - 1 < q < self@ implies !#[trigger] is_prime(q) by {
                    assert(before < q);
                }
                assert forall|i: int| 0 <= i <= start && i < N implies #[trigger] self.bools@[i]
                    == old(self).bools@[i] by {
                    self.lemma_survivors_below_last_prime(i);
                    old(self).lemma_survivors_below_last_prime(i);
                }
            }
        }
        if num < N {
            proof {
                self.lemma_survivors_below_last_prime(num as int);
            }
            Some(self.bools[num])
        } else {
            proof {
                assert(!prime_in(num as int, N as int));
                self.lemma_view_is_prime();
            }
            None
        }
    }

    /// Advances the sieve until it reaches `num` and answers whether `num` is
    /// prime.
    pub fn find_primes(&mut self, num: usize) -> (r: bool)
        requires
            old(self).wf(),
            old(self).can_reach(num as int),
        ensures
            final(self).wf(),
            Self::search_outcome(old(self)@, final(self)@, num as int, Some(r)),
            r == is_prime(num as int),
            num <= old(self)@ ==> *final(self) == *old(self),
            forall|i: int|
                0 <= i <= old(self)@ && i < N ==> #[trigger] final(self).marked(i) == old(
                    self,
                ).marked(i),
    {
        match self.try_find_primes(num) {
            Some(b) => b,
            None => {
                proof {
                    assert(false);
                }
                false
            },
        }
    }

    /// For `i <= p < c`, surviving below `p` and below `c` are the same.
    proof fn lemma_survives_same_below(&self, i: int, p: int, c: int)
        requires
            0 <= i <= p < c,
        ensures
            survives(i, p) == survives(i, c),
    {
        if survives(i, p) {
            assert forall|d: int| 2 <= d < c && d < i implies #[trigger] (i % d) != 0 by {
                assert(d < p);
            }
        }
        if survives(i, c) {
            assert forall|d: int| 2 <= d < p && d < i implies #[trigger] (i % d) != 0 by {}
        }
    }

    /// A number `d` strictly between `p` and `c` that does not survive up to
    /// `p` cannot divide a number `i` that does.
    proof fn lemma_struck_between(&self, i: int, d: int, p: int)
        requires
            2 <= p < d < i,
            !survives(d, p + 1),
            survives(i, p + 1),
        ensures
            i % d != 0,
    {
        let e = choose|e: int| 2 <= e < p + 1 && e < d && #[trigger] (d % e) == 0;
        assert(2 <= e < p + 1 && e < d && d % e == 0);
        if i % d == 0 {
            lemma_divides_trans(i, d, e);
            assert(i % e != 0);
        }
    }

    /// Above `p`: surviving up to and including `p`, together with the
    /// knowledge that everything strictly between `p` and `c` is struck out,
    /// is surviving below `c`.
    proof fn lemma_survives_extends(&self, i: int, p: int, c: int)
        requires
            2 <= p < i,
            p < c,
            forall|q: int| p < q < c ==> !#[trigger] survives(q, p + 1),
        ensures
            (survives(i, p) && i % p != 0) == survives(i, c),
    {
        if survives(i, p) && i % p != 0 {
            assert(survives(i, p + 1)) by {
                assert forall|d: int| 2 <= d < p + 1 && d < i implies #[trigger] (i % d) != 0 by {
                    if d < p {
                    }
                }
            }
            assert forall|d: int| 2 <= d < c && d < i implies #[trigger] (i % d) != 0 by {
                if d > p {
                    assert(!survives(d, p + 1));
                    self.lemma_struck_between(i, d, p);
                }
            }
        }
        if survives(i, c) {
            assert forall|d: int| 2 <= d < p && d < i implies #[trigger] (i % d) != 0 by {}
            assert(i % p != 0);
        }
    }
}

/// A search that answers leaves the sieve able to answer the same question
/// on its own: the number is reached, and `prime_check` gives the same
/// answer as the search.
pub proof fn lemma_search_then_check<const N: usize>(pre: nat, post: nat, num: int, b: bool)
    requires
        Sieve::<N>::search_outcome(pre, post, num, Some(b)),
    ensures
        num <= post,
        (if num <= post {
            Some(is_prime(num))
        } else {
            None::<bool>
        }) == Some(b),
{
}

/// The `number` field of a request, as JSON gives it: an unsigned integer,
/// a negative integer, or any other number (such as a fraction).
pub enum Number {
    U(usize),
    I(isize),
    F,
}

/// A request line: `{"method": ..., "number": ...}`.
pub struct ClientMessage {
    pub method: String,
    pub number: Number,
}

/// A response line: `{"method": ..., "prime": ...}`.
pub struct ServerMessage {
    pub method: String,
    pub prime: bool,
}

/// What the server does with one request line.
pub enum Reply {
    /// Send the message and keep reading.
    Send(ServerMessage),
    /// Send the message and close the connection.
    SendAndClose(ServerMessage),
    /// Close the connection without answering: the sieve cannot reach the
    /// number below its bound.
    Abort,
}

/// `r` sends `{"method": method, "prime": prime}`, closing afterwards when
/// `close` holds.
pub open spec fn sends(r: Reply, method: Seq<char>, prime: bool, close: bool) -> bool {
    match r {
        Reply::Send(m) => !close && m.method@ == method && m.prime == prime,
        Reply::SendAndClose(m) => close && m.method@ == method && m.prime == prime,
        Reply::Abort => false,
    }
}

/// Answers one request line. `None` stands for a line that is not a
/// well-formed request. A well-formed `isPrime` request for an unsigned
/// number is answered from the sieve, advancing it if needed; one for any
/// other number is answered `false`; anything else gets a `malformed`
/// answer and ends the connection.
pub fn respond<const N: usize>(sieve: &mut Sieve<N>, request: Option<ClientMessage>) -> (r: Reply)
    requires
        old(sieve).wf(),
    ensures
        final(sieve).wf(),
        match request {
            Some(m) if m.method@ == "isPrime"@ => match m.number {
                Number::U(n) => {
                    &&& Sieve::<N>::search_outcome(old(sieve)@, final(sieve)@, n as int, if old(sieve).can_reach(n as int) {
                        Some(is_prime(n as int))
                    } else {
                        None
                    })
                    &&& if old(sieve).can_reach(n as int) {
                        sends(r, "isPrime"@, is_prime(n as int), false)
                    } else {
                        r is Abort
                    }
                },
                _ => final(sieve)@ == old(sieve)@ && sends(r, "isPrime"@, false, false),
            },
            _ => final(sieve)@ == old(sieve)@ && sends(r, "malformed"@, false, true),
        },
{
    let is_prime_method = String::from_str("isPrime");
    match request {
        Some(m) => {
            if m.method == is_prime_method {
                match m.number {
                    Number::U(n) => match sieve.try_find_primes(n) {
                        Some(b) => Reply::Send(ServerMessage { method: is_prime_method, prime: b }),
                        None => Reply::Abort,
                    },
                    _ => Reply::Send(ServerMessage { method: is_prime_method, prime: false }),
                }
            } else {
                Reply::SendAndClose(
                    ServerMessage { method: String::from_str("malformed"), prime: false },
                )
            }
        },
        None => Reply::SendAndClose(
            ServerMessage { method: String::from_str("malformed"), prime: false },
        ),
    }
}

} // verus!
