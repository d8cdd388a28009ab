use syntcalc::alias::{lookup_function, lookup_var, AliasTable};

#[test]
fn inserted_name_is_found() {
    let mut t: AliasTable<i32> = AliasTable::new();
    assert!(!t.contains("a"));
    t.insert("a".to_string(), 5);
    assert_eq!(t.get("a"), Some(&5));
    assert_eq!(t.len(), 1);
}

#[test]
fn insert_overwrites() {
    let mut t: AliasTable<i32> = AliasTable::new();
    t.insert("a".to_string(), 5);
    t.insert("b".to_string(), 7);
    t.insert("a".to_string(), 6);
    assert_eq!(t.get("a"), Some(&6));
    assert_eq!(t.get("b"), Some(&7));
    assert_eq!(t.len(), 2);
}

#[test]
fn fresh_table_does_not_see_other_tables() {
    let mut t: AliasTable<i32> = AliasTable::new();
    t.insert("a".to_string(), 5);
    let fresh: AliasTable<i32> = AliasTable::new();
    assert_eq!(fresh.get("a"), None);
    assert_eq!(fresh.len(), 0);
}

#[test]
fn local_scope_shadows_global() {
    let mut global: AliasTable<i32> = AliasTable::new();
    let mut local: AliasTable<i32> = AliasTable::new();
    global.insert("x".to_string(), 1);
    global.insert("y".to_string(), 2);
    local.insert("x".to_string(), 10);
    assert_eq!(lookup_var(&local, &global, "x"), Ok(&10));
    assert_eq!(lookup_var(&local, &global, "y"), Ok(&2));
    assert_eq!(lookup_var(&local, &global, "z"), Err("Variable z not found".to_string()));
}

#[test]
fn functions_are_looked_up_by_name() {
    let mut t: AliasTable<u32> = AliasTable::new();
    t.insert("sin".to_string(), 1);
    assert_eq!(lookup_function(&t, "sin"), Ok(&1));
    assert_eq!(lookup_function(&t, "tanh"), Err("No such function: tanh".to_string()));
}
