use varuna_gen::error::GenError;
use varuna_gen::target::{allocate, format_decimal, parse_counter};

#[test]
fn automatic_allocations_count_up() {
    let first = allocate("target", None, None).unwrap();
    assert_eq!(first.counter, 1);
    assert_eq!(first.dir_name, "target-1");
    assert_eq!(first.counter_text, "2");
    let second = allocate("target", None, Some(first.counter_text.as_str())).unwrap();
    assert_eq!(second.counter, 2);
    assert_eq!(second.dir_name, "target-2");
    assert_eq!(second.counter_text, "3");
}

#[test]
fn explicit_id_is_used_and_advances_counter() {
    let a = allocate("lab", Some(5), Some("17")).unwrap();
    assert_eq!(a.counter, 5);
    assert_eq!(a.dir_name, "lab-5");
    assert_eq!(a.counter_text, "6");
}

#[test]
fn corrupt_counter_is_an_error() {
    let r = allocate("target", None, Some("seven"));
    assert_eq!(r.err().unwrap(), GenError::CorruptCounter { content: "seven".to_string() });
    assert!(allocate("target", None, Some("")).is_err());
    assert!(allocate("target", None, Some("-3")).is_err());
    assert!(allocate("target", None, Some("18446744073709551615999")).is_err());
}

#[test]
fn counter_text_reads_back() {
    assert_eq!(parse_counter("+12"), Some(12));
    assert_eq!(parse_counter("0"), Some(0));
    assert_eq!(parse_counter("+"), None);
    assert_eq!(parse_counter("1 "), None);
    assert_eq!(parse_counter("٣"), None);
    assert_eq!(parse_counter(&usize::MAX.to_string()), None);
    assert_eq!(parse_counter(&(usize::MAX - 1).to_string()), Some(usize::MAX - 1));
    for n in [0usize, 7, 10, 99, 1000, 123456789] {
        assert_eq!(format_decimal(n), n.to_string());
        assert_eq!(parse_counter(&format_decimal(n)), Some(n));
    }
}
