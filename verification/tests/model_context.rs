use sally::models::expressions::Expr;
use sally::models::model_var::ModelVar;
use sally::models::label::lbl;
use sally::models::model_context::ModelContext;
use sally::models::model_var::VarType;

#[test]
fn a_new_context_is_empty() {
    let c = ModelContext::new();
    assert_eq!(c.n_vars(), 0);
    assert_eq!(c.n_actions(), 0);
    assert!(!c.has_custom_path());
    assert_eq!(c.get_path(), lbl(""));
    assert_eq!(c.make_memory().len(), 0);
}

#[test]
fn added_variables_are_mapped_one_after_another() {
    let mut c = ModelContext::new();
    let x = c.add_var(lbl("x"), VarType::VarI32);
    let y = c.add_var(lbl("y"), VarType::VarU8);
    assert_eq!(x.get_address(), 0);
    assert_eq!(y.get_address(), 4);
    assert_eq!(y.get_type(), VarType::VarU8);
    assert_eq!(c.n_vars(), 2);
    assert_eq!(c.make_memory().len(), 5);
    assert_eq!(c.get_var(&lbl("x")), Some(x));
    assert!(c.has_var(&lbl("y")));
    assert!(!c.has_var(&lbl("z")));
    assert_eq!(c.get_var(&lbl("z")), None);
}

#[test]
fn adding_a_name_again_replaces_the_variable() {
    let mut c = ModelContext::new();
    c.add_var(lbl("x"), VarType::VarI32);
    let again = c.add_var(lbl("x"), VarType::VarI16);
    assert_eq!(c.n_vars(), 1);
    assert_eq!(again.get_address(), 4);
    assert_eq!(c.get_var(&lbl("x")), Some(again.clone()));
    assert_eq!(c.get_vars(), vec![again]);
}

#[test]
fn domains_prefix_the_names() {
    let mut c = ModelContext::new();
    c.add_domain(lbl("net"));
    c.add_domain(lbl("p1"));
    assert!(c.has_custom_path());
    assert_eq!(c.get_path(), lbl("net.p1"));
    assert_eq!(c.get_local_var_name(lbl("x")), lbl("net.p1.x"));
    let x = c.add_var(lbl("x"), VarType::VarU16);
    assert_eq!(x.get_name(), lbl("net.p1.x"));
    assert!(c.has_var(&lbl("x")));
    c.parent();
    assert_eq!(c.get_path(), lbl("net"));
    assert!(!c.has_var(&lbl("x")));
    assert!(c.has_var(&lbl("p1.x")));
    c.origin();
    assert!(!c.has_custom_path());
    assert!(c.has_var(&lbl("net.p1.x")));
    c.parent();
    assert_eq!(c.get_path(), lbl(""));
}

#[test]
fn clearing_forgets_everything() {
    let mut c = ModelContext::new();
    c.add_domain(lbl("a"));
    c.add_var(lbl("x"), VarType::VarI8);
    c.clear();
    assert_eq!(c.n_vars(), 0);
    assert!(!c.has_custom_path());
    assert_eq!(c.make_memory().len(), 0);
}

#[test]
fn applying_a_variable_finds_it_in_the_context() {
    let mut c = ModelContext::new();
    let x = c.add_var(lbl("x"), VarType::VarI32);
    let found = ModelVar::name(lbl("x")).apply_to(&c).unwrap();
    assert_eq!(found, x);
    let missing = ModelVar::name(lbl("y")).apply_to(&c);
    assert_eq!(missing.unwrap_err().0, lbl("Unable to map var to index !"));
    let e = Expr::Plus(Box::new(Expr::Var(ModelVar::name(lbl("x")))), Box::new(Expr::Constant(2)));
    assert_eq!(
        e.apply_to(&c).unwrap(),
        Expr::Plus(Box::new(Expr::Var(x)), Box::new(Expr::Constant(2)))
    );
    let bad = Expr::Negative(Box::new(Expr::Var(ModelVar::name(lbl("y")))));
    assert!(bad.apply_to(&c).is_err());
}
