use tcp_rust::recurrence::{hello_marco, recurrence_terms};

#[test]
fn hello_macro_test() {
    println!("{}", hello_marco());
    assert_eq!(hello_marco(), " hello from my macro");
}

#[test]
fn recur_macto_test() {
    let terms = recurrence_terms(10);
    for e in terms.iter() {
        println!("{}", e)
    }
    assert_eq!(terms, vec![1, 1, 2, 6, 24, 120, 720, 5040, 40320, 362880]);
}
