use exchange_lab::circuit_breaker::{CircuitBreaker, CircuitBreakerConfig, CircuitBreakerError};
use std::time::Duration;

fn failing_op() -> Result<(), &'static str> {
    Err("boom")
}

fn ok_op() -> Result<&'static str, &'static str> {
    Ok("ok")
}

#[test]
fn opens_after_threshold_failures() {
    let config = CircuitBreakerConfig::new(3, Duration::from_millis(200));
    let mut cb = CircuitBreaker::new(config);

    assert!(cb.is_closed());

    let _ = cb.call(|| failing_op());
    let _ = cb.call(|| failing_op());
    assert!(cb.is_closed());

    let _ = cb.call(|| failing_op());
    assert!(cb.is_open());

    let result = cb.call(|| ok_op());
    assert!(matches!(result, Err(CircuitBreakerError::Open)));
}

#[test]
fn success_resets_failure_count() {
    let mut cb = CircuitBreaker::new(CircuitBreakerConfig::new(2, Duration::from_secs(60)));
    let _ = cb.call(|| failing_op());
    assert_eq!(cb.call(|| ok_op()).ok(), Some("ok"));
    let _ = cb.call(|| failing_op());
    assert!(cb.is_closed());
    assert!(!cb.is_half_open());
    let _ = cb.call(|| failing_op());
    assert!(cb.is_open());
}

#[test]
fn inner_error_is_passed_through() {
    let mut cb = CircuitBreaker::new(CircuitBreakerConfig::new(5, Duration::from_secs(60)));
    match cb.call(|| failing_op()) {
        Err(CircuitBreakerError::Inner(e)) => assert_eq!(e, "boom"),
        _ => panic!("expected inner error"),
    }
}

#[test]
fn zero_cooldown_lets_a_probe_through() {
    let mut cb = CircuitBreaker::new(CircuitBreakerConfig::new(1, Duration::ZERO));
    let _ = cb.call(|| failing_op());
    assert!(cb.is_open());
    let res = cb.call(|| ok_op());
    assert!(res.is_ok());
    assert!(cb.is_closed());

    let _ = cb.call(|| failing_op());
    assert!(cb.is_open());
    let res = cb.call(|| failing_op());
    assert!(matches!(res, Err(CircuitBreakerError::Inner(_))));
    assert!(cb.is_open());
}

#[test]
fn errors_describe_themselves() {
    let open: CircuitBreakerError<&str> = CircuitBreakerError::Open;
    assert_eq!(open.message(), "circuit breaker is open");
    assert_eq!(CircuitBreakerError::Inner("boom").message(), "inner error: boom");
}

#[test]
fn open_breaker_refuses_within_cooldown() {
    let mut cb = CircuitBreaker::new(CircuitBreakerConfig::new(1, Duration::from_millis(200)));
    let _ = cb.call(|| failing_op());
    assert!(cb.is_open());
    let res = cb.call_after_wait(199_999_999, || ok_op());
    assert!(matches!(res, Err(CircuitBreakerError::Open)));
    assert!(cb.is_open());
}

#[test]
fn probe_after_cooldown_closes_on_success() {
    let mut cb = CircuitBreaker::new(CircuitBreakerConfig::new(1, Duration::from_millis(200)));
    let _ = cb.call(|| failing_op());
    let res = cb.call_after_wait(250_000_000, || ok_op());
    assert_eq!(res.ok(), Some("ok"));
    assert!(cb.is_closed());
}

#[test]
fn probe_after_cooldown_reopens_on_failure() {
    let mut cb = CircuitBreaker::new(CircuitBreakerConfig::new(1, Duration::from_millis(100)));
    let _ = cb.call(|| failing_op());
    let res = cb.call_after_wait(100_000_000, || failing_op());
    assert!(matches!(res, Err(CircuitBreakerError::Inner("boom"))));
    assert!(cb.is_open());
}

#[test]
fn waiting_moves_only_an_open_breaker() {
    let mut cb = CircuitBreaker::new(CircuitBreakerConfig::new(2, Duration::from_millis(50)));
    cb.after_wait(u128::MAX);
    assert!(cb.is_closed());
    let _ = cb.call(|| failing_op());
    let _ = cb.call(|| failing_op());
    assert!(cb.is_open());
    cb.after_wait(49_999_999);
    assert!(cb.is_open());
    cb.after_wait(50_000_000);
    assert!(cb.is_half_open());
    cb.after_wait(0);
    assert!(cb.is_half_open());
}
