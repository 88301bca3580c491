use egglog_wrapper::sym::{decimal_string, sym_string, Sym, TyCounter};

#[test]
fn counter_starts_at_zero_and_counts_up() {
    let mut c = TyCounter::new();
    assert_eq!(c.get_counter(), 0);
    assert_eq!(c.inc(), 0);
    assert_eq!(c.inc(), 1);
    assert_eq!(c.get_counter(), 2);
}

#[test]
fn next_sym_takes_the_counter_as_serial() {
    let mut c = TyCounter::new();
    assert_eq!(c.next_sym(3), Sym { ty: 3, serial: 0 });
    assert_eq!(c.next_sym(3), Sym { ty: 3, serial: 1 });
}

#[test]
fn symbols_are_written_as_name_and_number() {
    assert_eq!(decimal_string(0), "0");
    assert_eq!(decimal_string(4294967295), "4294967295");
    assert_eq!(sym_string("cons", 12), "cons12");
}
