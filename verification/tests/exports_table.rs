use enigma::exports_table::{Export, ExportsTable};
use enigma::instr_ptr::InstrPtr;
use enigma::module::MFA;

#[test]
fn test_with_rc() {
    let _table = ExportsTable::with_bifs(&[(MFA(1, 2, 3), 7)]);
}

#[test]
fn test_lookup() {
    let mut table = ExportsTable::new();

    assert!(table.lookup(&MFA(0, 0, 0)).is_none());

    table.register(MFA(1, 2, 0), InstrPtr { module: 1, ptr: 10 });

    assert!(table.lookup(&MFA(1, 2, 1)).is_none());
    assert!(table.lookup(&MFA(1, 2, 0)).is_some());
    assert_eq!(
        table.lookup(&MFA(1, 2, 0)).unwrap(),
        Export::Fun(InstrPtr { module: 1, ptr: 10 })
    );

    table.insert(MFA(1, 2, 0), Export::Bif(4));
    assert_eq!(table.lookup(&MFA(1, 2, 0)), Some(Export::Bif(4)));
}
