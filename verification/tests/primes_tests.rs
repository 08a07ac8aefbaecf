use protohackers::primes::{respond, ClientMessage, Number, Reply, Sieve};

fn naive_is_prime(n: usize) -> bool {
    n >= 2 && (2..n).all(|d| n % d != 0)
}

fn request(method: &str, number: Number) -> Option<ClientMessage> {
    Some(ClientMessage { method: method.to_string(), number })
}

fn sent(r: &Reply) -> Option<(String, bool, bool)> {
    match r {
        Reply::Send(m) => Some((m.method.clone(), m.prime, false)),
        Reply::SendAndClose(m) => Some((m.method.clone(), m.prime, true)),
        Reply::Abort => None,
    }
}

#[test]
fn fresh_sieve_knows_only_up_to_two() {
    let s = Sieve::<100>::new();
    assert_eq!(s.prime_check(0), Some(false));
    assert_eq!(s.prime_check(1), Some(false));
    assert_eq!(s.prime_check(2), Some(true));
    assert_eq!(s.prime_check(3), None);
}

#[test]
fn find_primes_answers_and_extends_the_sieve() {
    let mut s = Sieve::<1000>::new();
    assert!(s.find_primes(97));
    assert_eq!(s.prime_check(97), Some(true));
    assert_eq!(s.prime_check(91), Some(false));
    assert_eq!(s.prime_check(98), None);
    assert!(!s.find_primes(100));
    assert_eq!(s.prime_check(101), Some(true));
    assert_eq!(s.prime_check(102), None);
}

#[test]
fn sieve_agrees_with_trial_division() {
    let mut s = Sieve::<500>::new();
    for n in 0..490 {
        assert_eq!(s.find_primes(n), naive_is_prime(n), "n = {}", n);
    }
    for n in 0..490 {
        assert_eq!(s.prime_check(n), Some(naive_is_prime(n)), "n = {}", n);
    }
}

#[test]
fn find_primes_within_reach_below_last_prime() {
    let mut s = Sieve::<30>::new();
    assert!(s.find_primes(29));
    assert!(!s.find_primes(27));
    assert_eq!(s.prime_check(29), Some(true));
}

#[test]
fn try_find_primes_stops_at_bound() {
    // 20 and 21 are not prime and no prime lies below 22 after 19.
    let mut s = Sieve::<22>::new();
    assert_eq!(s.try_find_primes(20), None);
    assert_eq!(s.prime_check(19), Some(true));
    assert_eq!(s.prime_check(20), None);
    let mut t = Sieve::<24>::new();
    assert_eq!(t.try_find_primes(20), Some(false));
    assert_eq!(t.prime_check(23), Some(true));
    assert_eq!(t.try_find_primes(24), None);
}

#[test]
fn degenerate_sieve_of_two() {
    let mut s = Sieve::<2>::new();
    assert_eq!(s.prime_check(1), Some(false));
    assert_eq!(s.try_find_primes(2), None);
    assert_eq!(s.try_find_primes(1), Some(false));
}

#[test]
fn search_then_check_agree() {
    let mut s = Sieve::<200>::new();
    let b = s.find_primes(113);
    assert_eq!(s.prime_check(113), Some(b));
    assert!(b);
}

#[test]
fn respond_to_prime_request() {
    let mut s = Sieve::<1000>::new();
    let r = respond(&mut s, request("isPrime", Number::U(7)));
    assert_eq!(sent(&r), Some(("isPrime".to_string(), true, false)));
    let r = respond(&mut s, request("isPrime", Number::U(9)));
    assert_eq!(sent(&r), Some(("isPrime".to_string(), false, false)));
}

#[test]
fn respond_to_negative_or_fractional_number() {
    let mut s = Sieve::<100>::new();
    let r = respond(&mut s, request("isPrime", Number::I(-7)));
    assert_eq!(sent(&r), Some(("isPrime".to_string(), false, false)));
    let r = respond(&mut s, request("isPrime", Number::F));
    assert_eq!(sent(&r), Some(("isPrime".to_string(), false, false)));
    assert_eq!(s.prime_check(3), None);
}

#[test]
fn respond_to_wrong_method_is_malformed() {
    let mut s = Sieve::<100>::new();
    let r = respond(&mut s, request("isprime", Number::U(7)));
    assert_eq!(sent(&r), Some(("malformed".to_string(), false, true)));
}

#[test]
fn respond_to_unparsable_line_is_malformed() {
    let mut s = Sieve::<100>::new();
    let r = respond(&mut s, None);
    assert_eq!(sent(&r), Some(("malformed".to_string(), false, true)));
}

#[test]
fn respond_beyond_sieve_bound_aborts() {
    let mut s = Sieve::<100>::new();
    let r = respond(&mut s, request("isPrime", Number::U(100)));
    assert!(matches!(r, Reply::Abort));
    assert_eq!(s.prime_check(97), Some(true));
}

#[test]
fn search_for_reached_number_changes_nothing() {
    let mut s = Sieve::<100>::new();
    assert!(s.find_primes(31));
    assert_eq!(s.prime_check(37), None);
    assert!(!s.find_primes(30));
    assert_eq!(s.try_find_primes(31), Some(true));
    assert_eq!(s.prime_check(37), None);
    assert_eq!(s.prime_check(31), Some(true));
}
