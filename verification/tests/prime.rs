use protohackers::prime::{is_prime_integer, is_prime_method};

#[test]
fn small_numbers() {
    let primes: Vec<i64> = (-10..60).filter(|&n| is_prime_integer(n)).collect();
    assert_eq!(primes, vec![2, 3, 5, 7, 11, 13, 17, 19, 23, 29, 31, 37, 41, 43, 47, 53, 59]);
}

#[test]
fn squares_and_large_numbers() {
    assert!(!is_prime_integer(9));
    assert!(!is_prime_integer(25));
    assert!(!is_prime_integer(49));
    assert!(!is_prime_integer(1_000_000_007 * 3));
    assert!(is_prime_integer(1_000_000_007));
    assert!(is_prime_integer(2_147_483_647));
    assert!(!is_prime_integer(i64::MIN));
    assert!(!is_prime_integer(0));
    assert!(!is_prime_integer(1));
}

#[test]
fn only_is_prime_method() {
    assert!(is_prime_method(&"isPrime".to_string()));
    assert!(!is_prime_method(&"isprime".to_string()));
    assert!(!is_prime_method(&"".to_string()));
}
